//! The normal-form rewriter: six structure-preserving passes, each applied
//! bottom-up, iterated to a fixpoint. The first three eliminate exclusive
//! disjunction, logical equivalence and the material condition; De Morgan
//! push-down and double-negation collapse then drive the tree to negation
//! normal form, and distribution of disjunction over conjunction finishes
//! the conjunctive normal form.

use vstd::prelude::*;

use crate::formula::FormulaError;
use crate::formula::Node;
use crate::formula::Operator;
use crate::formula::binary_truth;
use crate::formula::contains_op;
use crate::formula::copy_tree;
use crate::formula::eval_env;
use crate::formula::literal_only;
use crate::formula::rpn_of;
use crate::formula::symbolic;
use crate::formula::tree_eq;
use crate::formula::wf;
use crate::formula::ast_to_rpn;
use crate::parser::parse_formula;
use crate::parser::spec_parse;

verus! {

/// Rewrites every exclusive disjunction `a ^ b` into
/// `(a & !b) | (!a & b)`, children first.
pub open spec fn spec_remove_xor(n: Node) -> Node
    decreases n,
{
    match n {
        Node::BinaryExpr { op: Operator::ExclusiveDisjunction, lhs, rhs } => {
            let l = spec_remove_xor(*lhs);
            let r = spec_remove_xor(*rhs);
            Node::BinaryExpr {
                op: Operator::Disjunction,
                lhs: Box::new(
                    Node::BinaryExpr {
                        op: Operator::Conjunction,
                        lhs: Box::new(l),
                        rhs: Box::new(
                            Node::UnaryExpr { op: Operator::Negation, child: Box::new(r) },
                        ),
                    },
                ),
                rhs: Box::new(
                    Node::BinaryExpr {
                        op: Operator::Conjunction,
                        lhs: Box::new(
                            Node::UnaryExpr { op: Operator::Negation, child: Box::new(l) },
                        ),
                        rhs: Box::new(r),
                    },
                ),
            }
        }
        Node::BinaryExpr { op, lhs, rhs } => Node::BinaryExpr {
            op,
            lhs: Box::new(spec_remove_xor(*lhs)),
            rhs: Box::new(spec_remove_xor(*rhs)),
        },
        Node::UnaryExpr { op, child } => Node::UnaryExpr {
            op,
            child: Box::new(spec_remove_xor(*child)),
        },
        other => other,
    }
}

/// Rewrites every logical equivalence `a = b` into `(a > b) & (b > a)`,
/// children first.
pub open spec fn spec_equivalence(n: Node) -> Node
    decreases n,
{
    match n {
        Node::BinaryExpr { op: Operator::LogicalEquivalence, lhs, rhs } => {
            let l = spec_equivalence(*lhs);
            let r = spec_equivalence(*rhs);
            Node::BinaryExpr {
                op: Operator::Conjunction,
                lhs: Box::new(
                    Node::BinaryExpr {
                        op: Operator::MaterialCondition,
                        lhs: Box::new(l),
                        rhs: Box::new(r),
                    },
                ),
                rhs: Box::new(
                    Node::BinaryExpr {
                        op: Operator::MaterialCondition,
                        lhs: Box::new(r),
                        rhs: Box::new(l),
                    },
                ),
            }
        }
        Node::BinaryExpr { op, lhs, rhs } => Node::BinaryExpr {
            op,
            lhs: Box::new(spec_equivalence(*lhs)),
            rhs: Box::new(spec_equivalence(*rhs)),
        },
        Node::UnaryExpr { op, child } => Node::UnaryExpr {
            op,
            child: Box::new(spec_equivalence(*child)),
        },
        other => other,
    }
}

/// Rewrites every material condition `a > b` into `!a | b`, children first.
pub open spec fn spec_material_condition(n: Node) -> Node
    decreases n,
{
    match n {
        Node::BinaryExpr { op: Operator::MaterialCondition, lhs, rhs } => {
            let l = spec_material_condition(*lhs);
            let r = spec_material_condition(*rhs);
            Node::BinaryExpr {
                op: Operator::Disjunction,
                lhs: Box::new(Node::UnaryExpr { op: Operator::Negation, child: Box::new(l) }),
                rhs: Box::new(r),
            }
        }
        Node::BinaryExpr { op, lhs, rhs } => Node::BinaryExpr {
            op,
            lhs: Box::new(spec_material_condition(*lhs)),
            rhs: Box::new(spec_material_condition(*rhs)),
        },
        Node::UnaryExpr { op, child } => Node::UnaryExpr {
            op,
            child: Box::new(spec_material_condition(*child)),
        },
        other => other,
    }
}

/// Pushes one layer of negation through each conjunction or disjunction:
/// `!(a & b)` becomes `!a | !b` and `!(a | b)` becomes `!a & !b`, children
/// first; negation of anything else stays.
pub open spec fn spec_de_morgan(n: Node) -> Node
    decreases n,
{
    match n {
        Node::BinaryExpr { op, lhs, rhs } => Node::BinaryExpr {
            op,
            lhs: Box::new(spec_de_morgan(*lhs)),
            rhs: Box::new(spec_de_morgan(*rhs)),
        },
        Node::UnaryExpr { op: Operator::Negation, child } => {
            let c = spec_de_morgan(*child);
            match c {
                Node::BinaryExpr { op: Operator::Conjunction, lhs, rhs } => Node::BinaryExpr {
                    op: Operator::Disjunction,
                    lhs: Box::new(Node::UnaryExpr { op: Operator::Negation, child: lhs }),
                    rhs: Box::new(Node::UnaryExpr { op: Operator::Negation, child: rhs }),
                },
                Node::BinaryExpr { op: Operator::Disjunction, lhs, rhs } => Node::BinaryExpr {
                    op: Operator::Conjunction,
                    lhs: Box::new(Node::UnaryExpr { op: Operator::Negation, child: lhs }),
                    rhs: Box::new(Node::UnaryExpr { op: Operator::Negation, child: rhs }),
                },
                other => Node::UnaryExpr { op: Operator::Negation, child: Box::new(other) },
            }
        }
        other => other,
    }
}

/// Collapses every `!!a` to `a`, children first.
pub open spec fn spec_double_negation(n: Node) -> Node
    decreases n,
{
    match n {
        Node::UnaryExpr { op: Operator::Negation, child } => {
            let c = spec_double_negation(*child);
            match c {
                Node::UnaryExpr { op: Operator::Negation, child: inner } => *inner,
                other => Node::UnaryExpr { op: Operator::Negation, child: Box::new(other) },
            }
        }
        Node::BinaryExpr { op, lhs, rhs } => Node::BinaryExpr {
            op,
            lhs: Box::new(spec_double_negation(*lhs)),
            rhs: Box::new(spec_double_negation(*rhs)),
        },
        other => other,
    }
}

/// Distributes disjunction over conjunction once at each node, children
/// first: `(a & b) | c` becomes `(a | c) & (b | c)`, and `a | (b & c)`
/// becomes `(a | b) & (a | c)`.
pub open spec fn spec_distributivity(n: Node) -> Node
    decreases n,
{
    match n {
        Node::BinaryExpr { op: Operator::Disjunction, lhs, rhs } => {
            let l = spec_distributivity(*lhs);
            let r = spec_distributivity(*rhs);
            match l {
                Node::BinaryExpr { op: Operator::Conjunction, lhs: a, rhs: b } => Node::BinaryExpr {
                    op: Operator::Conjunction,
                    lhs: Box::new(
                        Node::BinaryExpr { op: Operator::Disjunction, lhs: a, rhs: Box::new(r) },
                    ),
                    rhs: Box::new(
                        Node::BinaryExpr { op: Operator::Disjunction, lhs: b, rhs: Box::new(r) },
                    ),
                },
                lother => match r {
                    Node::BinaryExpr {
                        op: Operator::Conjunction,
                        lhs: a,
                        rhs: b,
                    } => Node::BinaryExpr {
                        op: Operator::Conjunction,
                        lhs: Box::new(
                            Node::BinaryExpr {
                                op: Operator::Disjunction,
                                lhs: Box::new(lother),
                                rhs: a,
                            },
                        ),
                        rhs: Box::new(
                            Node::BinaryExpr {
                                op: Operator::Disjunction,
                                lhs: Box::new(lother),
                                rhs: b,
                            },
                        ),
                    },
                    rother => Node::BinaryExpr {
                        op: Operator::Disjunction,
                        lhs: Box::new(lother),
                        rhs: Box::new(rother),
                    },
                },
            }
        }
        Node::BinaryExpr { op, lhs, rhs } => Node::BinaryExpr {
            op,
            lhs: Box::new(spec_distributivity(*lhs)),
            rhs: Box::new(spec_distributivity(*rhs)),
        },
        Node::UnaryExpr { op, child } => Node::UnaryExpr {
            op,
            child: Box::new(spec_distributivity(*child)),
        },
        other => other,
    }
}

/// One round of the negation-normal-form passes, in their fixed order.
pub open spec fn spec_do_all(n: Node) -> Node {
    spec_double_negation(
        spec_de_morgan(spec_material_condition(spec_equivalence(spec_remove_xor(n)))),
    )
}

/// Eliminates every exclusive disjunction, rewriting `a ^ b` to
/// `(a & !b) | (!a & b)`, children first.
pub fn remove_xor(node: Node) -> (r: Node)
    ensures
        r == spec_remove_xor(node),
    decreases node,
{
    match node {
        Node::BinaryExpr { op: Operator::ExclusiveDisjunction, lhs, rhs } => {
            let l = remove_xor(*lhs);
            let r = remove_xor(*rhs);
            let l2 = copy_tree(&l);
            let r2 = copy_tree(&r);
            Node::BinaryExpr {
                op: Operator::Disjunction,
                lhs: Box::new(
                    Node::BinaryExpr {
                        op: Operator::Conjunction,
                        lhs: Box::new(l),
                        rhs: Box::new(
                            Node::UnaryExpr { op: Operator::Negation, child: Box::new(r) },
                        ),
                    },
                ),
                rhs: Box::new(
                    Node::BinaryExpr {
                        op: Operator::Conjunction,
                        lhs: Box::new(
                            Node::UnaryExpr { op: Operator::Negation, child: Box::new(l2) },
                        ),
                        rhs: Box::new(r2),
                    },
                ),
            }
        }
        Node::BinaryExpr { op, lhs, rhs } => Node::BinaryExpr {
            op,
            lhs: Box::new(remove_xor(*lhs)),
            rhs: Box::new(remove_xor(*rhs)),
        },
        Node::UnaryExpr { op, child } => Node::UnaryExpr {
            op,
            child: Box::new(remove_xor(*child)),
        },
        other => other,
    }
}

/// Eliminates every logical equivalence, rewriting `a = b` to
/// `(a > b) & (b > a)`, children first.
pub fn equivalence(node: Node) -> (r: Node)
    ensures
        r == spec_equivalence(node),
    decreases node,
{
    match node {
        Node::BinaryExpr { op: Operator::LogicalEquivalence, lhs, rhs } => {
            let l = equivalence(*lhs);
            let r = equivalence(*rhs);
            let l2 = copy_tree(&l);
            let r2 = copy_tree(&r);
            Node::BinaryExpr {
                op: Operator::Conjunction,
                lhs: Box::new(
                    Node::BinaryExpr {
                        op: Operator::MaterialCondition,
                        lhs: Box::new(l),
                        rhs: Box::new(r),
                    },
                ),
                rhs: Box::new(
                    Node::BinaryExpr {
                        op: Operator::MaterialCondition,
                        lhs: Box::new(r2),
                        rhs: Box::new(l2),
                    },
                ),
            }
        }
        Node::BinaryExpr { op, lhs, rhs } => Node::BinaryExpr {
            op,
            lhs: Box::new(equivalence(*lhs)),
            rhs: Box::new(equivalence(*rhs)),
        },
        Node::UnaryExpr { op, child } => Node::UnaryExpr {
            op,
            child: Box::new(equivalence(*child)),
        },
        other => other,
    }
}

/// Eliminates every material condition, rewriting `a > b` to `!a | b`,
/// children first.
pub fn material_conditon(node: Node) -> (r: Node)
    ensures
        r == spec_material_condition(node),
    decreases node,
{
    match node {
        Node::BinaryExpr { op: Operator::MaterialCondition, lhs, rhs } => {
            let l = material_conditon(*lhs);
            let r = material_conditon(*rhs);
            Node::BinaryExpr {
                op: Operator::Disjunction,
                lhs: Box::new(Node::UnaryExpr { op: Operator::Negation, child: Box::new(l) }),
                rhs: Box::new(r),
            }
        }
        Node::BinaryExpr { op, lhs, rhs } => Node::BinaryExpr {
            op,
            lhs: Box::new(material_conditon(*lhs)),
            rhs: Box::new(material_conditon(*rhs)),
        },
        Node::UnaryExpr { op, child } => Node::UnaryExpr {
            op,
            child: Box::new(material_conditon(*child)),
        },
        other => other,
    }
}

/// Pushes negations one layer through conjunctions and disjunctions,
/// children first.
pub fn de_morgans_law(node: Node) -> (r: Node)
    ensures
        r == spec_de_morgan(node),
    decreases node,
{
    match node {
        Node::BinaryExpr { op, lhs, rhs } => Node::BinaryExpr {
            op,
            lhs: Box::new(de_morgans_law(*lhs)),
            rhs: Box::new(de_morgans_law(*rhs)),
        },
        Node::UnaryExpr { op: Operator::Negation, child } => {
            let c = de_morgans_law(*child);
            match c {
                Node::BinaryExpr { op: Operator::Conjunction, lhs, rhs } => Node::BinaryExpr {
                    op: Operator::Disjunction,
                    lhs: Box::new(Node::UnaryExpr { op: Operator::Negation, child: lhs }),
                    rhs: Box::new(Node::UnaryExpr { op: Operator::Negation, child: rhs }),
                },
                Node::BinaryExpr { op: Operator::Disjunction, lhs, rhs } => Node::BinaryExpr {
                    op: Operator::Conjunction,
                    lhs: Box::new(Node::UnaryExpr { op: Operator::Negation, child: lhs }),
                    rhs: Box::new(Node::UnaryExpr { op: Operator::Negation, child: rhs }),
                },
                other => Node::UnaryExpr { op: Operator::Negation, child: Box::new(other) },
            }
        }
        other => other,
    }
}

/// Collapses every double negation, children first.
pub fn double_negation(node: Node) -> (r: Node)
    ensures
        r == spec_double_negation(node),
    decreases node,
{
    match node {
        Node::UnaryExpr { op: Operator::Negation, child } => {
            let c = double_negation(*child);
            match c {
                Node::UnaryExpr { op: Operator::Negation, child: inner } => *inner,
                other => Node::UnaryExpr { op: Operator::Negation, child: Box::new(other) },
            }
        }
        Node::BinaryExpr { op, lhs, rhs } => Node::BinaryExpr {
            op,
            lhs: Box::new(double_negation(*lhs)),
            rhs: Box::new(double_negation(*rhs)),
        },
        other => other,
    }
}

/// Distributes disjunction over conjunction once at each node, children
/// first.
pub fn distributivity(node: Node) -> (r: Node)
    ensures
        r == spec_distributivity(node),
    decreases node,
{
    match node {
        Node::BinaryExpr { op: Operator::Disjunction, lhs, rhs } => {
            let l = distributivity(*lhs);
            let r = distributivity(*rhs);
            match l {
                Node::BinaryExpr { op: Operator::Conjunction, lhs: a, rhs: b } => {
                    let r2 = copy_tree(&r);
                    Node::BinaryExpr {
                        op: Operator::Conjunction,
                        lhs: Box::new(
                            Node::BinaryExpr {
                                op: Operator::Disjunction,
                                lhs: a,
                                rhs: Box::new(r),
                            },
                        ),
                        rhs: Box::new(
                            Node::BinaryExpr {
                                op: Operator::Disjunction,
                                lhs: b,
                                rhs: Box::new(r2),
                            },
                        ),
                    }
                }
                lother => match r {
                    Node::BinaryExpr { op: Operator::Conjunction, lhs: a, rhs: b } => {
                        let l2 = copy_tree(&lother);
                        Node::BinaryExpr {
                            op: Operator::Conjunction,
                            lhs: Box::new(
                                Node::BinaryExpr {
                                    op: Operator::Disjunction,
                                    lhs: Box::new(lother),
                                    rhs: a,
                                },
                            ),
                            rhs: Box::new(
                                Node::BinaryExpr {
                                    op: Operator::Disjunction,
                                    lhs: Box::new(l2),
                                    rhs: b,
                                },
                            ),
                        }
                    }
                    rother => Node::BinaryExpr {
                        op: Operator::Disjunction,
                        lhs: Box::new(lother),
                        rhs: Box::new(rother),
                    },
                },
            }
        }
        Node::BinaryExpr { op, lhs, rhs } => Node::BinaryExpr {
            op,
            lhs: Box::new(distributivity(*lhs)),
            rhs: Box::new(distributivity(*rhs)),
        },
        Node::UnaryExpr { op, child } => Node::UnaryExpr {
            op,
            child: Box::new(distributivity(*child)),
        },
        other => other,
    }
}

/// One round of the negation-normal-form passes, in their fixed order.
pub fn do_all(node: Node) -> (r: Node)
    ensures
        r == spec_do_all(node),
{
    double_negation(de_morgans_law(material_conditon(equivalence(remove_xor(node)))))
}

/// How many exclusive-disjunction, material-condition and equivalence nodes
/// the tree still holds; the first three passes drive it to zero.
pub open spec fn xeq_count(n: Node) -> nat
    decreases n,
{
    match n {
        Node::Value(_) => 0,
        Node::Bool(_) => 0,
        Node::UnaryExpr { op, child } => xeq_count(*child),
        Node::BinaryExpr { op, lhs, rhs } => xeq_count(*lhs) + xeq_count(*rhs) + (
        if op == Operator::ExclusiveDisjunction || op == Operator::MaterialCondition || op
            == Operator::LogicalEquivalence {
            1nat
        } else {
            0nat
        }),
    }
}

/// A measure that every De Morgan push-down and double-negation collapse
/// strictly shrinks: negation doubles the weight of whatever sits below it.
pub open spec fn neg_weight(n: Node) -> nat
    decreases n,
{
    match n {
        Node::Value(_) => 1,
        Node::Bool(_) => 1,
        Node::UnaryExpr { op, child } => 2 * neg_weight(*child),
        Node::BinaryExpr { op, lhs, rhs } => neg_weight(*lhs) + neg_weight(*rhs) + 1,
    }
}

/// A measure that every distribution step strictly shrinks: disjunction
/// multiplies the weights of its sides.
pub open spec fn dist_weight(n: Node) -> nat
    decreases n,
{
    match n {
        Node::Value(_) => 1,
        Node::Bool(_) => 1,
        Node::UnaryExpr { op, child } => dist_weight(*child),
        Node::BinaryExpr { op: Operator::Disjunction, lhs, rhs } => 2 * (dist_weight(*lhs)
            * dist_weight(*rhs)),
        Node::BinaryExpr { op, lhs, rhs } => dist_weight(*lhs) + dist_weight(*rhs) + 1,
    }
}

proof fn lemma_mul_le(a: nat, b: nat, a2: nat, b2: nat)
    requires
        a <= a2,
        b <= b2,
    ensures
        a * b <= a2 * b2,
{
    assert(a * b <= a2 * b2) by (nonlinear_arith)
        requires
            a <= a2,
            b <= b2,
            0 <= a,
            0 <= b,
    ;
}

proof fn lemma_neg_weight_pos(n: Node)
    ensures
        neg_weight(n) >= 1,
    decreases n,
{
    match n {
        Node::UnaryExpr { op, child } => {
            lemma_neg_weight_pos(*child);
        }
        _ => {
    }
    }
}

proof fn lemma_dist_weight_pos(n: Node)
    ensures
        dist_weight(n) >= 1,
    decreases n,
{
    match n {
        Node::UnaryExpr { op, child } => {
            lemma_dist_weight_pos(*child);
        }
        Node::BinaryExpr { op, lhs, rhs } => {
            lemma_dist_weight_pos(*lhs);
            lemma_dist_weight_pos(*rhs);
            if op == Operator::Disjunction {
                lemma_mul_le(1, 1, dist_weight(*lhs), dist_weight(*rhs));
            }
        }
        _ => {
    }
    }
}

/// The tree holds none of the three eliminated connectives exactly when the
/// elimination measure is zero.
pub proof fn lemma_xeq_count_zero(n: Node)
    requires
        wf(n),
    ensures
        xeq_count(n) == 0 <==> (!contains_op(n, Operator::ExclusiveDisjunction) && !contains_op(
            n,
            Operator::MaterialCondition,
        ) && !contains_op(n, Operator::LogicalEquivalence)),
    decreases n,
{
    match n {
        Node::UnaryExpr { op, child } => {
            lemma_xeq_count_zero(*child);
        }
        Node::BinaryExpr { op, lhs, rhs } => {
            lemma_xeq_count_zero(*lhs);
            lemma_xeq_count_zero(*rhs);
        }
        _ => {
    }
    }
}

/// The exclusive-disjunction pass removes every exclusive disjunction and
/// introduces only conjunction, disjunction and negation.
pub proof fn lemma_remove_xor_shape(n: Node)
    requires
        wf(n),
    ensures
        wf(spec_remove_xor(n)),
        !contains_op(spec_remove_xor(n), Operator::ExclusiveDisjunction),
        !contains_op(n, Operator::MaterialCondition) ==> !contains_op(
            spec_remove_xor(n),
            Operator::MaterialCondition,
        ),
        !contains_op(n, Operator::LogicalEquivalence) ==> !contains_op(
            spec_remove_xor(n),
            Operator::LogicalEquivalence,
        ),
        symbolic(n) ==> symbolic(spec_remove_xor(n)),
        literal_only(n) ==> literal_only(spec_remove_xor(n)),
    decreases n,
{
    reveal_with_fuel(contains_op, 5);
    reveal_with_fuel(wf, 5);
    reveal_with_fuel(symbolic, 5);
    reveal_with_fuel(literal_only, 5);
    match n {
        Node::UnaryExpr { op, child } => {
            lemma_remove_xor_shape(*child);
        }
        Node::BinaryExpr { op, lhs, rhs } => {
            lemma_remove_xor_shape(*lhs);
            lemma_remove_xor_shape(*rhs);
        }
        _ => {
    }
    }
}

/// The equivalence pass removes every equivalence and introduces only the
/// material condition and conjunction.
pub proof fn lemma_equivalence_shape(n: Node)
    requires
        wf(n),
    ensures
        wf(spec_equivalence(n)),
        !contains_op(spec_equivalence(n), Operator::LogicalEquivalence),
        !contains_op(n, Operator::ExclusiveDisjunction) ==> !contains_op(
            spec_equivalence(n),
            Operator::ExclusiveDisjunction,
        ),
        symbolic(n) ==> symbolic(spec_equivalence(n)),
        literal_only(n) ==> literal_only(spec_equivalence(n)),
    decreases n,
{
    reveal_with_fuel(contains_op, 5);
    reveal_with_fuel(wf, 5);
    reveal_with_fuel(symbolic, 5);
    reveal_with_fuel(literal_only, 5);
    match n {
        Node::UnaryExpr { op, child } => {
            lemma_equivalence_shape(*child);
        }
        Node::BinaryExpr { op, lhs, rhs } => {
            lemma_equivalence_shape(*lhs);
            lemma_equivalence_shape(*rhs);
        }
        _ => {
    }
    }
}

/// The material-condition pass removes every material condition and
/// introduces only disjunction and negation.
pub proof fn lemma_material_shape(n: Node)
    requires
        wf(n),
    ensures
        wf(spec_material_condition(n)),
        !contains_op(spec_material_condition(n), Operator::MaterialCondition),
        !contains_op(n, Operator::ExclusiveDisjunction) ==> !contains_op(
            spec_material_condition(n),
            Operator::ExclusiveDisjunction,
        ),
        !contains_op(n, Operator::LogicalEquivalence) ==> !contains_op(
            spec_material_condition(n),
            Operator::LogicalEquivalence,
        ),
        symbolic(n) ==> symbolic(spec_material_condition(n)),
        literal_only(n) ==> literal_only(spec_material_condition(n)),
    decreases n,
{
    reveal_with_fuel(contains_op, 5);
    reveal_with_fuel(wf, 5);
    reveal_with_fuel(symbolic, 5);
    reveal_with_fuel(literal_only, 5);
    match n {
        Node::UnaryExpr { op, child } => {
            lemma_material_shape(*child);
        }
        Node::BinaryExpr { op, lhs, rhs } => {
            lemma_material_shape(*lhs);
            lemma_material_shape(*rhs);
        }
        _ => {
    }
    }
}

/// De Morgan push-down introduces no connective but conjunction,
/// disjunction and negation, and never grows its measure; whenever it
/// changes the tree the measure strictly falls.
pub proof fn lemma_de_morgan_shape(n: Node)
    requires
        wf(n),
    ensures
        wf(spec_de_morgan(n)),
        !contains_op(n, Operator::ExclusiveDisjunction) ==> !contains_op(
            spec_de_morgan(n),
            Operator::ExclusiveDisjunction,
        ),
        !contains_op(n, Operator::MaterialCondition) ==> !contains_op(
            spec_de_morgan(n),
            Operator::MaterialCondition,
        ),
        !contains_op(n, Operator::LogicalEquivalence) ==> !contains_op(
            spec_de_morgan(n),
            Operator::LogicalEquivalence,
        ),
        symbolic(n) ==> symbolic(spec_de_morgan(n)),
        literal_only(n) ==> literal_only(spec_de_morgan(n)),
        neg_weight(spec_de_morgan(n)) <= neg_weight(n),
        spec_de_morgan(n) != n ==> neg_weight(spec_de_morgan(n)) < neg_weight(n),
    decreases n,
{
    reveal_with_fuel(neg_weight, 5);
    reveal_with_fuel(contains_op, 5);
    reveal_with_fuel(wf, 5);
    reveal_with_fuel(symbolic, 5);
    reveal_with_fuel(literal_only, 5);
    match n {
        Node::UnaryExpr { op, child } => {
            lemma_de_morgan_shape(*child);
            lemma_neg_weight_pos(*child);
            if op == Operator::Negation {
                let c = spec_de_morgan(*child);
                lemma_neg_weight_pos(c);
                match c {
                    Node::BinaryExpr { op: cop, lhs, rhs } => {
                        lemma_neg_weight_pos(*lhs);
                        lemma_neg_weight_pos(*rhs);
                    }
                    _ => {
                }
                }
            }
        }
        Node::BinaryExpr { op, lhs, rhs } => {
            lemma_de_morgan_shape(*lhs);
            lemma_de_morgan_shape(*rhs);
        }
        _ => {
    }
    }
}

/// Double-negation collapse introduces nothing and never grows its measure;
/// whenever it changes the tree the measure strictly falls.
pub proof fn lemma_double_negation_shape(n: Node)
    requires
        wf(n),
    ensures
        wf(spec_double_negation(n)),
        !contains_op(n, Operator::ExclusiveDisjunction) ==> !contains_op(
            spec_double_negation(n),
            Operator::ExclusiveDisjunction,
        ),
        !contains_op(n, Operator::MaterialCondition) ==> !contains_op(
            spec_double_negation(n),
            Operator::MaterialCondition,
        ),
        !contains_op(n, Operator::LogicalEquivalence) ==> !contains_op(
            spec_double_negation(n),
            Operator::LogicalEquivalence,
        ),
        symbolic(n) ==> symbolic(spec_double_negation(n)),
        literal_only(n) ==> literal_only(spec_double_negation(n)),
        neg_weight(spec_double_negation(n)) <= neg_weight(n),
        spec_double_negation(n) != n ==> neg_weight(spec_double_negation(n)) < neg_weight(n),
    decreases n,
{
    reveal_with_fuel(neg_weight, 5);
    reveal_with_fuel(contains_op, 5);
    reveal_with_fuel(wf, 5);
    reveal_with_fuel(symbolic, 5);
    reveal_with_fuel(literal_only, 5);
    match n {
        Node::UnaryExpr { op, child } => {
            lemma_double_negation_shape(*child);
            lemma_neg_weight_pos(*child);
            if op == Operator::Negation {
                let c = spec_double_negation(*child);
                lemma_neg_weight_pos(c);
                match c {
                    Node::UnaryExpr { op: cop, child: inner } => {
                        lemma_neg_weight_pos(*inner);
                    }
                    _ => {
                }
                }
            }
        }
        Node::BinaryExpr { op, lhs, rhs } => {
            lemma_double_negation_shape(*lhs);
            lemma_double_negation_shape(*rhs);
        }
        _ => {
    }
    }
}

/// A tree without exclusive disjunctions passes through the
/// exclusive-disjunction pass unchanged.
pub proof fn lemma_remove_xor_identity(n: Node)
    requires
        !contains_op(n, Operator::ExclusiveDisjunction),
    ensures
        spec_remove_xor(n) == n,
    decreases n,
{
    match n {
        Node::UnaryExpr { op, child } => {
            lemma_remove_xor_identity(*child);
        }
        Node::BinaryExpr { op, lhs, rhs } => {
            lemma_remove_xor_identity(*lhs);
            lemma_remove_xor_identity(*rhs);
        }
        _ => {
    }
    }
}

/// A tree without equivalences passes through the equivalence pass
/// unchanged.
pub proof fn lemma_equivalence_identity(n: Node)
    requires
        !contains_op(n, Operator::LogicalEquivalence),
    ensures
        spec_equivalence(n) == n,
    decreases n,
{
    match n {
        Node::UnaryExpr { op, child } => {
            lemma_equivalence_identity(*child);
        }
        Node::BinaryExpr { op, lhs, rhs } => {
            lemma_equivalence_identity(*lhs);
            lemma_equivalence_identity(*rhs);
        }
        _ => {
    }
    }
}

/// A tree without material conditions passes through the
/// material-condition pass unchanged.
pub proof fn lemma_material_identity(n: Node)
    requires
        !contains_op(n, Operator::MaterialCondition),
    ensures
        spec_material_condition(n) == n,
    decreases n,
{
    match n {
        Node::UnaryExpr { op, child } => {
            lemma_material_identity(*child);
        }
        Node::BinaryExpr { op, lhs, rhs } => {
            lemma_material_identity(*lhs);
            lemma_material_identity(*rhs);
        }
        _ => {
    }
    }
}

/// One round of the passes drives the elimination measure to zero, and on a
/// tree already free of the three eliminated connectives it never grows the
/// negation measure, shrinking it strictly whenever it changes the tree.
pub proof fn lemma_do_all_progress(t: Node)
    requires
        wf(t),
    ensures
        wf(spec_do_all(t)),
        xeq_count(spec_do_all(t)) == 0,
        xeq_count(t) == 0 ==> neg_weight(spec_do_all(t)) <= neg_weight(t),
        xeq_count(t) == 0 && spec_do_all(t) != t ==> neg_weight(spec_do_all(t)) < neg_weight(t),
        symbolic(t) ==> symbolic(spec_do_all(t)),
        literal_only(t) ==> literal_only(spec_do_all(t)),
{
    let a = spec_remove_xor(t);
    let b = spec_equivalence(a);
    let c = spec_material_condition(b);
    let d = spec_de_morgan(c);
    let e = spec_double_negation(d);
    lemma_remove_xor_shape(t);
    lemma_equivalence_shape(a);
    lemma_material_shape(b);
    lemma_de_morgan_shape(c);
    lemma_double_negation_shape(d);
    lemma_xeq_count_zero(e);
    if xeq_count(t) == 0 {
        lemma_xeq_count_zero(t);
        lemma_remove_xor_identity(t);
        lemma_equivalence_identity(a);
        lemma_material_identity(b);
    }
}

/// The negation-normal-form rewrite: one round of the passes, repeated
/// until two consecutive results are structurally equal.
pub open spec fn spec_nnf(t: Node) -> Node
    decreases xeq_count(t), neg_weight(t),
        when wf(t)
    via spec_nnf_decreases
{
    let u = spec_do_all(t);
    if u == t {
        t
    } else {
        spec_nnf(u)
    }
}

#[via_fn]
proof fn spec_nnf_decreases(t: Node) {
    if wf(t) {
        lemma_do_all_progress(t);
    }
}

/// The distribution rewrite: distribution, repeated until two consecutive
/// results are structurally equal.
pub open spec fn spec_dist_fix(t: Node) -> Node
    decreases dist_weight(t),
        when wf(t)
    via spec_dist_fix_decreases
{
    let u = spec_distributivity(t);
    if u == t {
        t
    } else {
        spec_dist_fix(u)
    }
}

#[via_fn]
proof fn spec_dist_fix_decreases(t: Node) {
    if wf(t) {
        lemma_distributivity_shape(t);
    }
}

/// Distribution introduces no connective but conjunction and disjunction,
/// touches no negation, and never grows its measure; whenever it changes
/// the tree the measure strictly falls.
pub proof fn lemma_distributivity_shape(n: Node)
    requires
        wf(n),
    ensures
        wf(spec_distributivity(n)),
        !contains_op(n, Operator::ExclusiveDisjunction) ==> !contains_op(
            spec_distributivity(n),
            Operator::ExclusiveDisjunction,
        ),
        !contains_op(n, Operator::MaterialCondition) ==> !contains_op(
            spec_distributivity(n),
            Operator::MaterialCondition,
        ),
        !contains_op(n, Operator::LogicalEquivalence) ==> !contains_op(
            spec_distributivity(n),
            Operator::LogicalEquivalence,
        ),
        symbolic(n) ==> symbolic(spec_distributivity(n)),
        literal_only(n) ==> literal_only(spec_distributivity(n)),
        dist_weight(spec_distributivity(n)) <= dist_weight(n),
        spec_distributivity(n) != n ==> dist_weight(spec_distributivity(n)) < dist_weight(n),
    decreases n,
{
    reveal_with_fuel(dist_weight, 5);
    reveal_with_fuel(contains_op, 5);
    reveal_with_fuel(wf, 5);
    reveal_with_fuel(symbolic, 5);
    reveal_with_fuel(literal_only, 5);
    match n {
        Node::UnaryExpr { op, child } => {
            lemma_distributivity_shape(*child);
        }
        Node::BinaryExpr { op, lhs, rhs } => {
            lemma_distributivity_shape(*lhs);
            lemma_distributivity_shape(*rhs);
            lemma_dist_weight_pos(*lhs);
            lemma_dist_weight_pos(*rhs);
            let l = spec_distributivity(*lhs);
            let r = spec_distributivity(*rhs);
            lemma_dist_weight_pos(l);
            lemma_dist_weight_pos(r);
            if op == Operator::Disjunction {
                match l {
                    Node::BinaryExpr { op: Operator::Conjunction, lhs: a, rhs: b } => {
                        lemma_dist_weight_pos(*a);
                        lemma_dist_weight_pos(*b);
                        assert(2 * (dist_weight(*a) * dist_weight(r)) + 2 * (dist_weight(*b)
                            * dist_weight(r)) + 1 < 2 * (dist_weight(*lhs) * dist_weight(*rhs)))
                            by (nonlinear_arith)
                            requires
                                dist_weight(l) == dist_weight(*a) + dist_weight(*b) + 1,
                                dist_weight(l) <= dist_weight(*lhs),
                                dist_weight(r) <= dist_weight(*rhs),
                                1 <= dist_weight(r),
                                1 <= dist_weight(*a),
                                1 <= dist_weight(*b),
                        ;
                    }
                    _ => {
                        match r {
                            Node::BinaryExpr { op: Operator::Conjunction, lhs: a, rhs: b } => {
                                lemma_dist_weight_pos(*a);
                                lemma_dist_weight_pos(*b);
                                assert(2 * (dist_weight(l) * dist_weight(*a)) + 2 * (dist_weight(l)
                                    * dist_weight(*b)) + 1 < 2 * (dist_weight(*lhs) * dist_weight(
                                    *rhs,
                                ))) by (nonlinear_arith)
                                    requires
                                        dist_weight(r) == dist_weight(*a) + dist_weight(*b) + 1,
                                        dist_weight(l) <= dist_weight(*lhs),
                                        dist_weight(r) <= dist_weight(*rhs),
                                        1 <= dist_weight(l),
                                        1 <= dist_weight(*a),
                                        1 <= dist_weight(*b),
                                ;
                            }
                            _ => {
                                assert(2 * (dist_weight(l) * dist_weight(r)) <= 2 * (dist_weight(
                                    *lhs,
                                ) * dist_weight(*rhs))) by (nonlinear_arith)
                                    requires
                                        dist_weight(l) <= dist_weight(*lhs),
                                        dist_weight(r) <= dist_weight(*rhs),
                                        1 <= dist_weight(l),
                                        1 <= dist_weight(r),
                                ;
                                if l != *lhs || r != *rhs {
                                    assert(dist_weight(l) < dist_weight(*lhs) || dist_weight(r)
                                        < dist_weight(*rhs));
                                    assert(2 * (dist_weight(l) * dist_weight(r)) < 2 * (dist_weight(
                                        *lhs,
                                    ) * dist_weight(*rhs))) by (nonlinear_arith)
                                        requires
                                            dist_weight(l) <= dist_weight(*lhs),
                                            dist_weight(r) <= dist_weight(*rhs),
                                            dist_weight(l) < dist_weight(*lhs) || dist_weight(r)
                                                < dist_weight(*rhs),
                                            1 <= dist_weight(l),
                                            1 <= dist_weight(r),
                                    ;
                                }
                            }
                        }
                    }
                }
            }
        }
        _ => {
    }
    }
}

/// The exclusive-disjunction pass keeps the truth value of the tree under
/// every assignment.
pub proof fn lemma_remove_xor_truth(n: Node, env: Map<char, bool>)
    ensures
        eval_env(spec_remove_xor(n), env) == eval_env(n, env),
    decreases n,
{
    reveal_with_fuel(eval_env, 5);
    match n {
        Node::UnaryExpr { op, child } => {
            lemma_remove_xor_truth(*child, env);
        }
        Node::BinaryExpr { op, lhs, rhs } => {
            lemma_remove_xor_truth(*lhs, env);
            lemma_remove_xor_truth(*rhs, env);
        }
        _ => {
    }
    }
}

/// The equivalence pass keeps the truth value of the tree under every
/// assignment.
pub proof fn lemma_equivalence_truth(n: Node, env: Map<char, bool>)
    ensures
        eval_env(spec_equivalence(n), env) == eval_env(n, env),
    decreases n,
{
    reveal_with_fuel(eval_env, 5);
    match n {
        Node::UnaryExpr { op, child } => {
            lemma_equivalence_truth(*child, env);
        }
        Node::BinaryExpr { op, lhs, rhs } => {
            lemma_equivalence_truth(*lhs, env);
            lemma_equivalence_truth(*rhs, env);
        }
        _ => {
    }
    }
}

/// The material-condition pass keeps the truth value of the tree under
/// every assignment.
pub proof fn lemma_material_truth(n: Node, env: Map<char, bool>)
    ensures
        eval_env(spec_material_condition(n), env) == eval_env(n, env),
    decreases n,
{
    reveal_with_fuel(eval_env, 5);
    match n {
        Node::UnaryExpr { op, child } => {
            lemma_material_truth(*child, env);
        }
        Node::BinaryExpr { op, lhs, rhs } => {
            lemma_material_truth(*lhs, env);
            lemma_material_truth(*rhs, env);
        }
        _ => {
    }
    }
}

/// De Morgan push-down keeps the truth value of the tree under every
/// assignment.
pub proof fn lemma_de_morgan_truth(n: Node, env: Map<char, bool>)
    ensures
        eval_env(spec_de_morgan(n), env) == eval_env(n, env),
    decreases n,
{
    reveal_with_fuel(eval_env, 5);
    match n {
        Node::UnaryExpr { op, child } => {
            lemma_de_morgan_truth(*child, env);
        }
        Node::BinaryExpr { op, lhs, rhs } => {
            lemma_de_morgan_truth(*lhs, env);
            lemma_de_morgan_truth(*rhs, env);
        }
        _ => {
    }
    }
}

/// Double-negation collapse keeps the truth value of the tree under every
/// assignment.
pub proof fn lemma_double_negation_truth(n: Node, env: Map<char, bool>)
    ensures
        eval_env(spec_double_negation(n), env) == eval_env(n, env),
    decreases n,
{
    reveal_with_fuel(eval_env, 5);
    match n {
        Node::UnaryExpr { op, child } => {
            lemma_double_negation_truth(*child, env);
        }
        Node::BinaryExpr { op, lhs, rhs } => {
            lemma_double_negation_truth(*lhs, env);
            lemma_double_negation_truth(*rhs, env);
        }
        _ => {
    }
    }
}

/// Distribution keeps the truth value of the tree under every assignment.
pub proof fn lemma_distributivity_truth(n: Node, env: Map<char, bool>)
    ensures
        eval_env(spec_distributivity(n), env) == eval_env(n, env),
    decreases n,
{
    reveal_with_fuel(eval_env, 5);
    match n {
        Node::UnaryExpr { op, child } => {
            lemma_distributivity_truth(*child, env);
        }
        Node::BinaryExpr { op, lhs, rhs } => {
            lemma_distributivity_truth(*lhs, env);
            lemma_distributivity_truth(*rhs, env);
        }
        _ => {
    }
    }
}

/// One round of the passes keeps the truth value of the tree under every
/// assignment.
pub proof fn lemma_do_all_truth(n: Node, env: Map<char, bool>)
    ensures
        eval_env(spec_do_all(n), env) == eval_env(n, env),
{
    lemma_remove_xor_truth(n, env);
    lemma_equivalence_truth(spec_remove_xor(n), env);
    lemma_material_truth(spec_equivalence(spec_remove_xor(n)), env);
    lemma_de_morgan_truth(spec_material_condition(spec_equivalence(spec_remove_xor(n))), env);
    lemma_double_negation_truth(
        spec_de_morgan(spec_material_condition(spec_equivalence(spec_remove_xor(n)))),
        env,
    );
}

/// A leaf: a variable or a concrete truth value.
pub open spec fn is_leaf(n: Node) -> bool {
    match n {
        Node::Value(_) => true,
        Node::Bool(_) => true,
        _ => false,
    }
}

/// Negation normal shape: every negation sits directly on a leaf.
pub open spec fn neg_on_leaves(n: Node) -> bool
    decreases n,
{
    match n {
        Node::UnaryExpr { op, child } => is_leaf(*child),
        Node::BinaryExpr { op, lhs, rhs } => neg_on_leaves(*lhs) && neg_on_leaves(*rhs),
        _ => true,
    }
}

/// Whether the root node is a conjunction.
pub open spec fn is_conjunction(n: Node) -> bool {
    match n {
        Node::BinaryExpr { op, lhs, rhs } => op == Operator::Conjunction,
        _ => false,
    }
}

/// Conjunctive shape: no conjunction is a direct child of a disjunction.
pub open spec fn no_conj_under_disj(n: Node) -> bool
    decreases n,
{
    match n {
        Node::BinaryExpr { op, lhs, rhs } => (op == Operator::Disjunction ==> !is_conjunction(
            *lhs,
        ) && !is_conjunction(*rhs)) && no_conj_under_disj(*lhs) && no_conj_under_disj(*rhs),
        Node::UnaryExpr { op, child } => no_conj_under_disj(*child),
        _ => true,
    }
}

/// A tree left unchanged by one round of the passes is free of the three
/// eliminated connectives and each pass fixes it on its own.
proof fn lemma_do_all_fixpoint_parts(t: Node)
    requires
        wf(t),
        spec_do_all(t) == t,
    ensures
        xeq_count(t) == 0,
        spec_de_morgan(t) == t,
        spec_double_negation(t) == t,
{
    lemma_do_all_progress(t);
    lemma_xeq_count_zero(t);
    lemma_remove_xor_identity(t);
    lemma_equivalence_identity(t);
    lemma_material_identity(t);
    let d = spec_de_morgan(t);
    lemma_de_morgan_shape(t);
    lemma_double_negation_shape(d);
    if d != t {
        assert(neg_weight(d) < neg_weight(t));
        assert(neg_weight(spec_double_negation(d)) <= neg_weight(d));
        assert(false);
    }
}

/// A tree fixed by De Morgan push-down and double-negation collapse, and
/// free of the three eliminated connectives, is in negation normal shape.
proof fn lemma_fixpoint_neg_on_leaves(t: Node)
    requires
        wf(t),
        xeq_count(t) == 0,
        spec_de_morgan(t) == t,
        spec_double_negation(t) == t,
    ensures
        neg_on_leaves(t),
    decreases t,
{
    match t {
        Node::UnaryExpr { op, child } => {
            lemma_xeq_count_zero(t);
            lemma_xeq_count_zero(*child);
            lemma_de_morgan_shape(*child);
            let c = spec_de_morgan(*child);
            match c {
                Node::BinaryExpr { op: cop, lhs, rhs } => {
                    lemma_xeq_count_zero(c);
                    assert(cop == Operator::Conjunction || cop == Operator::Disjunction);
                    assert(spec_de_morgan(t) != t);
                }
                _ => {
            }
            }
            assert(spec_de_morgan(*child) == *child);
            let c2 = spec_double_negation(*child);
            lemma_double_negation_shape(*child);
            lemma_neg_weight_pos(*child);
            match c2 {
                Node::UnaryExpr { op: cop, child: inner } => {
                    // collapsing here would shrink the tree, against the fixpoint
                    lemma_neg_weight_pos(*inner);
                    assert(spec_double_negation(t) == *inner);
                    assert(neg_weight(*inner) < neg_weight(t));
                    assert(false);
                }
                _ => {
            }
            }
            assert(spec_double_negation(*child) == *child);
            match *child {
                Node::BinaryExpr { op: cop, lhs, rhs } => {
                    assert(cop == Operator::Conjunction || cop == Operator::Disjunction) by {
                        lemma_xeq_count_zero(*child);
                    }
                    assert(false);
                }
                Node::UnaryExpr { op: cop, child: inner } => {
                    assert(false);
                }
                _ => {
            }
            }
        }
        Node::BinaryExpr { op, lhs, rhs } => {
            lemma_xeq_count_zero(t);
            lemma_xeq_count_zero(*lhs);
            lemma_xeq_count_zero(*rhs);
            lemma_fixpoint_neg_on_leaves(*lhs);
            lemma_fixpoint_neg_on_leaves(*rhs);
        }
        _ => {
    }
    }
}

/// A tree fixed by distribution has no conjunction directly under a
/// disjunction.
proof fn lemma_dist_fixpoint_shape(t: Node)
    requires
        wf(t),
        spec_distributivity(t) == t,
    ensures
        no_conj_under_disj(t),
    decreases t,
{
    match t {
        Node::UnaryExpr { op, child } => {
            lemma_dist_fixpoint_shape(*child);
        }
        Node::BinaryExpr { op, lhs, rhs } => {
            if op == Operator::Disjunction {
                let l = spec_distributivity(*lhs);
                let r = spec_distributivity(*rhs);
                match l {
                    Node::BinaryExpr { op: lop, lhs: a, rhs: b } => {
                        if lop == Operator::Conjunction {
                            assert(is_conjunction(spec_distributivity(t)));
                            assert(false);
                        }
                    }
                    _ => {
                }
                }
                match r {
                    Node::BinaryExpr { op: rop, lhs: a, rhs: b } => {
                        if rop == Operator::Conjunction {
                            assert(is_conjunction(spec_distributivity(t)));
                            assert(false);
                        }
                    }
                    _ => {
                }
                }
            }
            lemma_dist_fixpoint_shape(*lhs);
            lemma_dist_fixpoint_shape(*rhs);
        }
        _ => {
    }
    }
}

/// De Morgan push-down fixes a tree in negation normal shape.
proof fn lemma_de_morgan_identity_nnf(n: Node)
    requires
        wf(n),
        neg_on_leaves(n),
    ensures
        spec_de_morgan(n) == n,
    decreases n,
{
    match n {
        Node::UnaryExpr { op, child } => {
            assert(spec_de_morgan(*child) == *child);
        }
        Node::BinaryExpr { op, lhs, rhs } => {
            lemma_de_morgan_identity_nnf(*lhs);
            lemma_de_morgan_identity_nnf(*rhs);
        }
        _ => {
    }
    }
}

/// Double-negation collapse fixes a tree in negation normal shape.
proof fn lemma_double_negation_identity_nnf(n: Node)
    requires
        wf(n),
        neg_on_leaves(n),
    ensures
        spec_double_negation(n) == n,
    decreases n,
{
    match n {
        Node::UnaryExpr { op, child } => {
            assert(spec_double_negation(*child) == *child);
        }
        Node::BinaryExpr { op, lhs, rhs } => {
            lemma_double_negation_identity_nnf(*lhs);
            lemma_double_negation_identity_nnf(*rhs);
        }
        _ => {
    }
    }
}

/// Distribution keeps negation normal shape.
proof fn lemma_dist_keeps_neg_on_leaves(n: Node)
    requires
        neg_on_leaves(n),
    ensures
        neg_on_leaves(spec_distributivity(n)),
    decreases n,
{
    reveal_with_fuel(neg_on_leaves, 5);
    match n {
        Node::UnaryExpr { op, child } => {
            assert(spec_distributivity(*child) == *child);
        }
        Node::BinaryExpr { op, lhs, rhs } => {
            lemma_dist_keeps_neg_on_leaves(*lhs);
            lemma_dist_keeps_neg_on_leaves(*rhs);
        }
        _ => {
    }
    }
}

/// Everything the negation-normal-form rewrite guarantees of its result:
/// it is a fixpoint of the passes, well formed, free of the three
/// eliminated connectives, in negation normal shape, and symbolic whenever
/// the input was.
pub proof fn lemma_nnf_props(t: Node)
    requires
        wf(t),
    ensures
        spec_do_all(spec_nnf(t)) == spec_nnf(t),
        wf(spec_nnf(t)),
        xeq_count(spec_nnf(t)) == 0,
        neg_on_leaves(spec_nnf(t)),
        symbolic(t) ==> symbolic(spec_nnf(t)),
        literal_only(t) ==> literal_only(spec_nnf(t)),
    decreases xeq_count(t), neg_weight(t),
{
    lemma_do_all_progress(t);
    let u = spec_do_all(t);
    if u == t {
        lemma_do_all_fixpoint_parts(t);
        lemma_fixpoint_neg_on_leaves(t);
    } else {
        lemma_nnf_props(u);
    }
}

/// The truth table survives the negation-normal-form rewrite (rewriter
/// soundness, for every assignment of the variables).
pub proof fn lemma_nnf_truth(t: Node, env: Map<char, bool>)
    requires
        wf(t),
    ensures
        eval_env(spec_nnf(t), env) == eval_env(t, env),
    decreases xeq_count(t), neg_weight(t),
{
    lemma_do_all_progress(t);
    lemma_do_all_truth(t, env);
    let u = spec_do_all(t);
    if u != t {
        lemma_nnf_truth(u, env);
    }
}

/// The conjunctive-normal-form rewrite: the negation-normal-form passes to
/// a fixpoint, then distribution to a fixpoint.
pub open spec fn spec_cnf(t: Node) -> Node {
    spec_dist_fix(spec_nnf(t))
}

/// Everything the distribution fixpoint guarantees of its result.
pub proof fn lemma_dist_fix_props(t: Node)
    requires
        wf(t),
    ensures
        spec_distributivity(spec_dist_fix(t)) == spec_dist_fix(t),
        wf(spec_dist_fix(t)),
        xeq_count(t) == 0 ==> xeq_count(spec_dist_fix(t)) == 0,
        neg_on_leaves(t) ==> neg_on_leaves(spec_dist_fix(t)),
        symbolic(t) ==> symbolic(spec_dist_fix(t)),
        literal_only(t) ==> literal_only(spec_dist_fix(t)),
    decreases dist_weight(t),
{
    lemma_distributivity_shape(t);
    let u = spec_distributivity(t);
    if u != t {
        if xeq_count(t) == 0 {
            lemma_xeq_count_zero(t);
            lemma_xeq_count_zero(u);
        }
        if neg_on_leaves(t) {
            lemma_dist_keeps_neg_on_leaves(t);
        }
        lemma_dist_fix_props(u);
    }
}

/// The truth table survives the distribution fixpoint.
pub proof fn lemma_dist_fix_truth(t: Node, env: Map<char, bool>)
    requires
        wf(t),
    ensures
        eval_env(spec_dist_fix(t), env) == eval_env(t, env),
    decreases dist_weight(t),
{
    lemma_distributivity_shape(t);
    lemma_distributivity_truth(t, env);
    let u = spec_distributivity(t);
    if u != t {
        lemma_dist_fix_truth(u, env);
    }
}

/// Rewriter soundness: under every assignment of truth values to the
/// variables, the rewritten formula evaluates exactly as the original, for
/// the negation-normal-form and the conjunctive-normal-form rewrite alike.
pub proof fn lemma_rewrite_preserves_truth(t: Node, env: Map<char, bool>)
    requires
        wf(t),
    ensures
        eval_env(spec_nnf(t), env) == eval_env(t, env),
        eval_env(spec_cnf(t), env) == eval_env(t, env),
{
    lemma_nnf_truth(t, env);
    lemma_nnf_props(t);
    lemma_dist_fix_truth(spec_nnf(t), env);
}

/// Rewriter output restriction: the rewritten tree holds no exclusive
/// disjunction, material condition or equivalence, its negations sit on
/// leaves, and after the conjunctive-normal-form rewrite no conjunction is
/// a direct child of a disjunction.
pub proof fn lemma_rewrite_shape(t: Node)
    requires
        wf(t),
    ensures
        !contains_op(spec_nnf(t), Operator::ExclusiveDisjunction),
        !contains_op(spec_nnf(t), Operator::MaterialCondition),
        !contains_op(spec_nnf(t), Operator::LogicalEquivalence),
        neg_on_leaves(spec_nnf(t)),
        !contains_op(spec_cnf(t), Operator::ExclusiveDisjunction),
        !contains_op(spec_cnf(t), Operator::MaterialCondition),
        !contains_op(spec_cnf(t), Operator::LogicalEquivalence),
        neg_on_leaves(spec_cnf(t)),
        no_conj_under_disj(spec_cnf(t)),
{
    lemma_nnf_props(t);
    lemma_xeq_count_zero(spec_nnf(t));
    lemma_dist_fix_props(spec_nnf(t));
    lemma_xeq_count_zero(spec_cnf(t));
    lemma_dist_fixpoint_shape(spec_cnf(t));
}

/// Idempotence: rewriting a second time changes nothing, structurally, for
/// either normal form.
pub proof fn lemma_rewrite_idempotent(t: Node)
    requires
        wf(t),
    ensures
        spec_nnf(spec_nnf(t)) == spec_nnf(t),
        spec_cnf(spec_cnf(t)) == spec_cnf(t),
{
    lemma_nnf_props(t);
    let n = spec_nnf(t);
    assert(spec_nnf(n) == n);
    lemma_dist_fix_props(n);
    let c = spec_cnf(t);
    // the distribution fixpoint is still a fixpoint of every earlier pass
    lemma_xeq_count_zero(n);
    lemma_xeq_count_zero(c);
    lemma_remove_xor_identity(c);
    lemma_equivalence_identity(c);
    lemma_material_identity(c);
    lemma_de_morgan_identity_nnf(c);
    lemma_double_negation_identity_nnf(c);
    assert(spec_do_all(c) == c);
    assert(spec_nnf(c) == c);
    assert(spec_dist_fix(c) == c);
}

/// Runs the pass round to its fixpoint.
fn run_to_fixpoint(cur: Node) -> (r: Node)
    requires
        wf(cur),
    ensures
        r == spec_nnf(cur),
    decreases xeq_count(cur), neg_weight(cur),
{
    proof {
        lemma_do_all_progress(cur);
    }
    let next = do_all(copy_tree(&cur));
    if tree_eq(&next, &cur) {
        cur
    } else {
        run_to_fixpoint(next)
    }
}

/// Runs distribution to its fixpoint.
fn run_dist_to_fixpoint(cur: Node) -> (r: Node)
    requires
        wf(cur),
    ensures
        r == spec_dist_fix(cur),
    decreases dist_weight(cur),
{
    proof {
        lemma_distributivity_shape(cur);
    }
    let next = distributivity(copy_tree(&cur));
    if tree_eq(&next, &cur) {
        cur
    } else {
        run_dist_to_fixpoint(next)
    }
}

/// Rewrites symbolic postfix text to negation normal form: the equivalent
/// formula restricted to negation, conjunction and disjunction, negations
/// on variables only, rendered back as postfix text. Fails exactly when the
/// text does not parse.
pub fn negation_normal_form(formula: &str) -> (r: Result<String, FormulaError>)
    ensures
        r is Ok <==> spec_parse(formula@, false) is Some,
        r is Ok ==> r->Ok_0@ == rpn_of(spec_nnf(spec_parse(formula@, false)->0)),
        r is Err ==> r->Err_0 == FormulaError::MalformedFormula,
{
    match parse_formula(formula) {
        Err(e) => Err(e),
        Ok(t) => {
            proof {
                crate::parser::lemma_parse_round_trip(formula@, false);
                lemma_nnf_props(t);
            }
            let n = run_to_fixpoint(t);
            match ast_to_rpn(&n) {
                Ok(text) => Ok(text),
                Err(_) => {
                    proof {
                        assert(false);
                    }
                    Err(FormulaError::MalformedFormula)
                }
            }
        }
    }
}

/// Rewrites symbolic postfix text to conjunctive normal form: negation
/// normal form first, then disjunctions distributed over conjunctions until
/// the tree is a conjunction of disjunctive clauses, rendered back as
/// postfix text. Fails exactly when the text does not parse.
pub fn conjunctive_normal_form(formula: &str) -> (r: Result<String, FormulaError>)
    ensures
        r is Ok <==> spec_parse(formula@, false) is Some,
        r is Ok ==> r->Ok_0@ == rpn_of(spec_cnf(spec_parse(formula@, false)->0)),
        r is Err ==> r->Err_0 == FormulaError::MalformedFormula,
{
    match parse_formula(formula) {
        Err(e) => Err(e),
        Ok(t) => {
            proof {
                crate::parser::lemma_parse_round_trip(formula@, false);
                lemma_nnf_props(t);
                lemma_dist_fix_props(spec_nnf(t));
            }
            let n = run_to_fixpoint(t);
            let c = run_dist_to_fixpoint(n);
            match ast_to_rpn(&c) {
                Ok(text) => Ok(text),
                Err(_) => {
                    proof {
                        assert(false);
                    }
                    Err(FormulaError::MalformedFormula)
                }
            }
        }
    }
}

} // verus!
