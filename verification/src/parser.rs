//! Postfix parsing: a stack machine reads the text left to right, pushing a
//! leaf for each variable or truth value and combining the top of the stack
//! for each connective symbol. The machine is mirrored by spec functions so
//! that parsing and serialization can be related exactly.

use vstd::prelude::*;

use crate::formula::FormulaError;
use crate::formula::Node;
use crate::formula::Operator;
use crate::formula::op_symbol;
use crate::formula::rpn_of;
use crate::formula::symbolic;
use crate::formula::literal_only;
use crate::formula::wf;

verus! {

/// Variables are single uppercase letters.
pub open spec fn is_variable(c: char) -> bool {
    65 <= c as u32 && c as u32 <= 90
}

/// The symbols of the five binary connectives.
pub open spec fn is_binary_symbol(c: char) -> bool {
    c == '&' || c == '|' || c == '^' || c == '>' || c == '='
}

/// The binary connective a symbol stands for.
pub open spec fn symbol_op(c: char) -> Operator {
    if c == '&' {
        Operator::Conjunction
    } else if c == '|' {
        Operator::Disjunction
    } else if c == '^' {
        Operator::ExclusiveDisjunction
    } else if c == '>' {
        Operator::MaterialCondition
    } else {
        Operator::LogicalEquivalence
    }
}

/// The leaf a character stands for. Symbolic text uses letters `A`..`Z`;
/// fully substituted text uses the digits `0` and `1`.
pub open spec fn spec_leaf(c: char, binary_leaves: bool) -> Option<Node> {
    if binary_leaves {
        if c == '0' {
            Some(Node::Bool(false))
        } else if c == '1' {
            Some(Node::Bool(true))
        } else {
            None
        }
    } else {
        if is_variable(c) {
            Some(Node::Value(c))
        } else {
            None
        }
    }
}

/// One step of the parsing stack machine; `None` is a malformed step, from
/// an unrecognized character or too few operands. A binary symbol pops the
/// right operand first, then the left.
pub open spec fn spec_step(stack: Seq<Node>, c: char, binary_leaves: bool) -> Option<Seq<Node>> {
    if c == '!' {
        if stack.len() >= 1 {
            Some(
                stack.take(stack.len() - 1).push(
                    Node::UnaryExpr { op: Operator::Negation, child: Box::new(stack.last()) },
                ),
            )
        } else {
            None
        }
    } else if is_binary_symbol(c) {
        if stack.len() >= 2 {
            Some(
                stack.take(stack.len() - 2).push(
                    Node::BinaryExpr {
                        op: symbol_op(c),
                        lhs: Box::new(stack[stack.len() - 2]),
                        rhs: Box::new(stack.last()),
                    },
                ),
            )
        } else {
            None
        }
    } else {
        match spec_leaf(c, binary_leaves) {
            Some(leaf) => Some(stack.push(leaf)),
            None => None,
        }
    }
}

/// Runs the machine over a text, left to right.
pub open spec fn spec_run(stack: Seq<Node>, s: Seq<char>, binary_leaves: bool) -> Option<
    Seq<Node>,
>
    decreases s.len(),
{
    if s.len() == 0 {
        Some(stack)
    } else {
        match spec_step(stack, s[0], binary_leaves) {
            Some(next) => spec_run(next, s.skip(1), binary_leaves),
            None => None,
        }
    }
}

/// The tree a postfix text describes: the machine, run from an empty stack,
/// must end with exactly one tree.
pub open spec fn spec_parse(s: Seq<char>, binary_leaves: bool) -> Option<Node> {
    match spec_run(Seq::empty(), s, binary_leaves) {
        Some(st) => if st.len() == 1 {
            Some(st[0])
        } else {
            None
        },
        None => None,
    }
}

/// Running the machine over `a + b` is running it over `a`, then over `b`.
pub proof fn lemma_run_split(stack: Seq<Node>, a: Seq<char>, b: Seq<char>, binary_leaves: bool)
    ensures
        spec_run(stack, a + b, binary_leaves) == (match spec_run(stack, a, binary_leaves) {
            Some(middle) => spec_run(middle, b, binary_leaves),
            None => None,
        }),
    decreases a.len(),
{
    if a.len() == 0 {
        assert(a + b =~= b);
    } else {
        assert((a + b)[0] == a[0]);
        assert((a + b).skip(1) =~= a.skip(1) + b);
        match spec_step(stack, a[0], binary_leaves) {
            Some(next) => {
                lemma_run_split(next, a.skip(1), b, binary_leaves);
            }
            None => {
        }
        }
    }
}

/// Extending the text by one character runs one more step of the machine.
pub proof fn lemma_run_snoc(stack: Seq<Node>, s: Seq<char>, c: char, binary_leaves: bool)
    ensures
        spec_run(stack, s.push(c), binary_leaves) == (match spec_run(stack, s, binary_leaves) {
            Some(st) => spec_step(st, c, binary_leaves),
            None => None,
        }),
{
    assert(s.push(c) =~= s + seq![c]);
    lemma_run_split(stack, s, seq![c], binary_leaves);
    match spec_run(stack, s, binary_leaves) {
        Some(st) => {
            assert(seq![c][0] == c);
            assert(seq![c].skip(1) =~= Seq::<char>::empty());
            match spec_step(st, c, binary_leaves) {
                Some(next) => {
                    assert(spec_run(next, seq![c].skip(1), binary_leaves) == Some(next));
                }
                None => {
            }
            }
        }
        None => {
    }
    }
}

/// The postfix texts of a stack of trees, oldest first, concatenated.
pub open spec fn stack_rpn(stack: Seq<Node>) -> Seq<char>
    decreases stack.len(),
{
    if stack.len() == 0 {
        Seq::empty()
    } else {
        stack_rpn(stack.drop_last()) + rpn_of(stack.last())
    }
}

/// Every tree on the stack is well formed, with the leaves the mode admits.
pub open spec fn stack_ok(stack: Seq<Node>, binary_leaves: bool) -> bool {
    forall|i: int|
        0 <= i < stack.len() ==> wf(#[trigger] stack[i]) && (binary_leaves ==> literal_only(
            stack[i],
        )) && (!binary_leaves ==> symbolic(stack[i]))
}

/// Every tree the machine leaves on the stack prints back to exactly the
/// text the machine consumed, and is well formed, with the leaves the mode
/// admits.
pub proof fn lemma_run_shape(stack: Seq<Node>, s: Seq<char>, binary_leaves: bool)
    requires
        spec_run(stack, s, binary_leaves) is Some,
        stack_ok(stack, binary_leaves),
    ensures
        stack_rpn(spec_run(stack, s, binary_leaves)->0) == stack_rpn(stack) + s,
        stack_ok(spec_run(stack, s, binary_leaves)->0, binary_leaves),
    decreases s.len(),
{
    if s.len() == 0 {
        assert(stack_rpn(stack) + s =~= stack_rpn(stack));
    } else {
        let next = spec_step(stack, s[0], binary_leaves)->0;
        assert(stack_ok(next, binary_leaves)) by {
            if s[0] == '!' {
                let kept = stack.take(stack.len() - 1);
                assert(forall|i: int| 0 <= i < kept.len() ==> #[trigger] kept[i] == stack[i]);
            } else if is_binary_symbol(s[0]) {
                let kept = stack.take(stack.len() - 2);
                assert(forall|i: int| 0 <= i < kept.len() ==> #[trigger] kept[i] == stack[i]);
                assert(symbol_op(s[0]) != Operator::Negation);
            } else {
            }
        }
        lemma_run_shape(next, s.skip(1), binary_leaves);
        assert(stack_rpn(next) == stack_rpn(stack) + seq![s[0]]) by {
            if s[0] == '!' {
                let kept = stack.take(stack.len() - 1);
                let built = Node::UnaryExpr {
                    op: Operator::Negation,
                    child: Box::new(stack.last()),
                };
                assert(next.drop_last() =~= kept);
                assert(next.last() == built);
                lemma_stack_rpn_last(next);
                lemma_stack_rpn_last(stack);
                assert(stack.drop_last() =~= kept);
                assert(rpn_of(built) == rpn_of(stack.last()).push('!'));
                assert(stack_rpn(kept) + rpn_of(built) =~= stack_rpn(stack) + seq!['!']);
            } else if is_binary_symbol(s[0]) {
                let kept = stack.take(stack.len() - 2);
                let left = stack[stack.len() - 2];
                let right = stack.last();
                let built = Node::BinaryExpr {
                    op: symbol_op(s[0]),
                    lhs: Box::new(left),
                    rhs: Box::new(right),
                };
                assert(next.drop_last() =~= kept);
                assert(next.last() == built);
                lemma_stack_rpn_last(next);
                lemma_stack_rpn_last(stack);
                lemma_stack_rpn_last(stack.drop_last());
                assert(stack.drop_last().drop_last() =~= kept);
                assert(stack.drop_last().last() == left);
                assert(op_symbol(symbol_op(s[0])) == s[0]);
                assert(rpn_of(built) == rpn_of(left) + rpn_of(right) + seq![s[0]]);
                assert(stack_rpn(kept) + rpn_of(built) =~= stack_rpn(stack) + seq![s[0]]);
            } else {
                let leaf = spec_leaf(s[0], binary_leaves)->0;
                assert(next.drop_last() =~= stack);
                assert(next.last() == leaf);
                lemma_stack_rpn_last(next);
                assert(rpn_of(leaf) =~= seq![s[0]]);
            }
        }
        assert(stack_rpn(stack) + seq![s[0]] + s.skip(1) =~= stack_rpn(stack) + s);
    }
}

/// Splitting the newest tree off the stack splits its text off the end.
proof fn lemma_stack_rpn_last(stack: Seq<Node>)
    requires
        stack.len() >= 1,
    ensures
        stack_rpn(stack) == stack_rpn(stack.drop_last()) + rpn_of(stack.last()),
{
}

/// Round trip: a tree parsed from postfix text prints back to that text.
pub proof fn lemma_parse_round_trip(s: Seq<char>, binary_leaves: bool)
    requires
        spec_parse(s, binary_leaves) is Some,
    ensures
        rpn_of(spec_parse(s, binary_leaves)->0) == s,
        wf(spec_parse(s, binary_leaves)->0),
        binary_leaves ==> literal_only(spec_parse(s, binary_leaves)->0),
        !binary_leaves ==> symbolic(spec_parse(s, binary_leaves)->0),
{
    lemma_run_shape(Seq::empty(), s, binary_leaves);
    let st = spec_run(Seq::empty(), s, binary_leaves)->0;
    assert(st.drop_last() =~= Seq::<Node>::empty());
    assert(stack_rpn(st) == rpn_of(st[0]));
    assert(Seq::<char>::empty() + s =~= s);
    assert(wf(st[0]) && (binary_leaves ==> literal_only(st[0])) && (!binary_leaves ==> symbolic(
        st[0],
    )));
}

/// A failed step anywhere makes the whole text malformed.
proof fn lemma_prefix_failure(s: Seq<char>, i: int, binary_leaves: bool)
    requires
        0 <= i < s.len(),
        spec_run(Seq::empty(), s.take(i), binary_leaves) is Some,
        spec_step(spec_run(Seq::empty(), s.take(i), binary_leaves)->0, s[i], binary_leaves)
            is None,
    ensures
        spec_run(Seq::empty(), s, binary_leaves) is None,
{
    lemma_run_split(Seq::empty(), s.take(i), s.skip(i), binary_leaves);
    assert(s.take(i) + s.skip(i) =~= s);
    assert(s.skip(i)[0] == s[i]);
}

/// Parses symbolic postfix text over `A`..`Z` and the six connective
/// symbols into a single tree. Fails when a connective finds too few
/// operands, when a character is not part of the alphabet, or when the text
/// does not reduce to exactly one tree.
pub fn parse_formula(formula: &str) -> (r: Result<Node, FormulaError>)
    ensures
        r is Ok <==> spec_parse(formula@, false) is Some,
        r is Ok ==> Some(r->Ok_0) == spec_parse(formula@, false),
        r is Err ==> r->Err_0 == FormulaError::MalformedFormula,
{
    let n = formula.unicode_len();
    let mut stack: Vec<Node> = Vec::new();
    let mut i: usize = 0;
    while i < n
        invariant
            i <= n,
            n == formula@.len(),
            spec_run(Seq::empty(), formula@.take(i as int), false) == Some(stack@),
        decreases n - i,
    {
        let c = formula.get_char(i);
        proof {
            lemma_run_snoc(Seq::empty(), formula@.take(i as int), c, false);
            assert(formula@.take(i as int + 1) =~= formula@.take(i as int).push(c));
        }
        let code = c as u32;
        if 65 <= code && code <= 90 {
            stack.push(Node::Value(c));
        } else if c == '!' {
            match stack.pop() {
                Some(child) => {
                    let ghost before = stack@.push(child);
                    stack.push(Node::UnaryExpr { op: Operator::Negation, child: Box::new(child) });
                    proof {
                        assert(stack@ =~= spec_step(before, c, false)->0);
                    }
                }
                None => {
                    proof {
                        lemma_prefix_failure(formula@, i as int, false);
                    }
                    return Err(FormulaError::MalformedFormula);
                }
            }
        } else if c == '&' || c == '|' || c == '^' || c == '>' || c == '=' {
            if stack.len() < 2 {
                proof {
                    lemma_prefix_failure(formula@, i as int, false);
                }
                return Err(FormulaError::MalformedFormula);
            }
            let op = if c == '&' {
                Operator::Conjunction
            } else if c == '|' {
                Operator::Disjunction
            } else if c == '^' {
                Operator::ExclusiveDisjunction
            } else if c == '>' {
                Operator::MaterialCondition
            } else {
                Operator::LogicalEquivalence
            };
            let ghost before = stack@;
            let rhs = match stack.pop() {
                Some(t) => t,
                None => {
                    proof {
                        assert(false);
                    }
                    return Err(FormulaError::MalformedFormula);
                }
            };
            let lhs = match stack.pop() {
                Some(t) => t,
                None => {
                    proof {
                        assert(false);
                    }
                    return Err(FormulaError::MalformedFormula);
                }
            };
            stack.push(Node::BinaryExpr { op, lhs: Box::new(lhs), rhs: Box::new(rhs) });
            proof {
                assert(stack@ =~= spec_step(before, c, false)->0);
            }
        } else {
            proof {
                lemma_prefix_failure(formula@, i as int, false);
            }
            return Err(FormulaError::MalformedFormula);
        }
        i = i + 1;
    }
    proof {
        assert(formula@.take(n as int) =~= formula@);
    }
    if stack.len() == 1 {
        match stack.pop() {
            Some(t) => Ok(t),
            None => {
                proof {
                    assert(false);
                }
                Err(FormulaError::MalformedFormula)
            }
        }
    } else {
        Err(FormulaError::MalformedFormula)
    }
}

/// Parses fully substituted postfix text over `0`, `1` and the six
/// connective symbols into a single tree, failing as [`parse_formula`] does.
pub fn parse_formula_binary(formula: &str) -> (r: Result<Node, FormulaError>)
    ensures
        r is Ok <==> spec_parse(formula@, true) is Some,
        r is Ok ==> Some(r->Ok_0) == spec_parse(formula@, true),
        r is Err ==> r->Err_0 == FormulaError::MalformedFormula,
{
    let n = formula.unicode_len();
    let mut stack: Vec<Node> = Vec::new();
    let mut i: usize = 0;
    while i < n
        invariant
            i <= n,
            n == formula@.len(),
            spec_run(Seq::empty(), formula@.take(i as int), true) == Some(stack@),
        decreases n - i,
    {
        let c = formula.get_char(i);
        proof {
            lemma_run_snoc(Seq::empty(), formula@.take(i as int), c, true);
            assert(formula@.take(i as int + 1) =~= formula@.take(i as int).push(c));
        }
        if c == '0' {
            stack.push(Node::Bool(false));
        } else if c == '1' {
            stack.push(Node::Bool(true));
        } else if c == '!' {
            match stack.pop() {
                Some(child) => {
                    let ghost before = stack@.push(child);
                    stack.push(Node::UnaryExpr { op: Operator::Negation, child: Box::new(child) });
                    proof {
                        assert(stack@ =~= spec_step(before, c, true)->0);
                    }
                }
                None => {
                    proof {
                        lemma_prefix_failure(formula@, i as int, true);
                    }
                    return Err(FormulaError::MalformedFormula);
                }
            }
        } else if c == '&' || c == '|' || c == '^' || c == '>' || c == '=' {
            if stack.len() < 2 {
                proof {
                    lemma_prefix_failure(formula@, i as int, true);
                }
                return Err(FormulaError::MalformedFormula);
            }
            let op = if c == '&' {
                Operator::Conjunction
            } else if c == '|' {
                Operator::Disjunction
            } else if c == '^' {
                Operator::ExclusiveDisjunction
            } else if c == '>' {
                Operator::MaterialCondition
            } else {
                Operator::LogicalEquivalence
            };
            let ghost before = stack@;
            let rhs = match stack.pop() {
                Some(t) => t,
                None => {
                    proof {
                        assert(false);
                    }
                    return Err(FormulaError::MalformedFormula);
                }
            };
            let lhs = match stack.pop() {
                Some(t) => t,
                None => {
                    proof {
                        assert(false);
                    }
                    return Err(FormulaError::MalformedFormula);
                }
            };
            stack.push(Node::BinaryExpr { op, lhs: Box::new(lhs), rhs: Box::new(rhs) });
            proof {
                assert(stack@ =~= spec_step(before, c, true)->0);
            }
        } else {
            proof {
                lemma_prefix_failure(formula@, i as int, true);
            }
            return Err(FormulaError::MalformedFormula);
        }
        i = i + 1;
    }
    proof {
        assert(formula@.take(n as int) =~= formula@);
    }
    if stack.len() == 1 {
        match stack.pop() {
            Some(t) => Ok(t),
            None => {
                proof {
                    assert(false);
                }
                Err(FormulaError::MalformedFormula)
            }
        }
    } else {
        Err(FormulaError::MalformedFormula)
    }
}

/// Every character is a variable or a connective symbol.
pub open spec fn letters_ok(s: Seq<char>) -> bool {
    forall|i: int|
        0 <= i < s.len() ==> is_variable(#[trigger] s[i]) || s[i] == '!' || is_binary_symbol(s[i])
}

/// The distinct variables of a text, in order of first occurrence.
pub open spec fn distinct_letters(s: Seq<char>) -> Seq<char>
    decreases s.len(),
{
    if s.len() == 0 {
        Seq::empty()
    } else {
        let prefix = distinct_letters(s.drop_last());
        if is_variable(s.last()) && !prefix.contains(s.last()) {
            prefix.push(s.last())
        } else {
            prefix
        }
    }
}

/// The collected variables hold no duplicates, are variables, and occur in
/// the text.
pub proof fn lemma_distinct_letters(s: Seq<char>)
    ensures
        forall|i: int, j: int|
            0 <= i < j < distinct_letters(s).len() ==> distinct_letters(s)[i] != distinct_letters(
                s,
            )[j],
        forall|i: int|
            0 <= i < distinct_letters(s).len() ==> is_variable(#[trigger] distinct_letters(s)[i])
                && s.contains(distinct_letters(s)[i]),
    decreases s.len(),
{
    if s.len() > 0 {
        lemma_distinct_letters(s.drop_last());
        let prefix = distinct_letters(s.drop_last());
        assert(forall|i: int|
            0 <= i < prefix.len() ==> s.drop_last().contains(#[trigger] prefix[i]));
        assert(forall|c: char| s.drop_last().contains(c) ==> s.contains(c)) by {
            assert(forall|j: int|
                0 <= j < s.drop_last().len() ==> s.drop_last()[j] == #[trigger] s[j]);
        }
        if is_variable(s.last()) && !prefix.contains(s.last()) {
            assert(s.contains(s.last()));
        }
    }
}

/// Distinct characters have distinct scalar values.
proof fn lemma_char_codes_differ(a: char, b: char)
    requires
        a != b,
    ensures
        (a as u32) as int != (b as u32) as int,
{
}

/// Every variable occurring in the text is collected.
pub proof fn lemma_distinct_letters_complete(s: Seq<char>, c: char)
    requires
        s.contains(c),
        is_variable(c),
    ensures
        distinct_letters(s).contains(c),
    decreases s.len(),
{
    let w = choose|w: int| 0 <= w < s.len() && s[w] == c;
    if w == s.len() - 1 {
        let prefix = distinct_letters(s.drop_last());
        if prefix.contains(c) {
            let u = choose|u: int| 0 <= u < prefix.len() && prefix[u] == c;
            assert(distinct_letters(s)[u] == c);
        } else {
            assert(distinct_letters(s).last() == c);
        }
    } else {
        assert(s.drop_last()[w] == c);
        assert(s.drop_last().contains(c));
        lemma_distinct_letters_complete(s.drop_last(), c);
        let prefix = distinct_letters(s.drop_last());
        let u = choose|u: int| 0 <= u < prefix.len() && prefix[u] == c;
        assert(distinct_letters(s)[u] == c);
    }
}

/// There are only twenty-six letters, so no formula has more distinct
/// variables than that.
pub proof fn lemma_distinct_letters_bound(s: Seq<char>)
    ensures
        distinct_letters(s).len() <= 26,
{
    broadcast use vstd::set::group_set_axioms;
    broadcast use vstd::seq::group_seq_axioms;

    lemma_distinct_letters(s);
    let used = distinct_letters(s);
    let codes = used.map_values(|c: char| (c as u32) as int);
    assert forall|i: int, j: int|
        (0 <= i < codes.len() && 0 <= j < codes.len() && i != j) implies codes[i] != codes[j] by {
        assert(codes[i] == (used[i] as u32) as int);
        assert(codes[j] == (used[j] as u32) as int);
        assert(used[i] != used[j]);
        lemma_char_codes_differ(used[i], used[j]);
    };
    assert(codes.no_duplicates());
    codes.unique_seq_to_set();
    let range = vstd::set_lib::set_int_range(65, 91);
    assert forall|x: int| #[trigger] codes.to_set().contains(x) implies range.contains(x) by {
        assert(codes.contains(x));
        let i = choose|i: int| 0 <= i < codes.len() && codes[i] == x;
        assert(codes[i] == (used[i] as u32) as int);
        assert(is_variable(used[i]));
        assert(65 <= x && x < 91);
        assert(range.contains(x));
    };
    assert(codes.to_set().subset_of(range));
    vstd::set_lib::lemma_int_range(65, 91);
    vstd::set_lib::lemma_len_subset(codes.to_set(), range);
}

/// Whether a character already occurs in a vector.
fn contains_char(v: &Vec<char>, c: char) -> (r: bool)
    ensures
        r <==> v@.contains(c),
{
    let mut i: usize = 0;
    while i < v.len()
        invariant
            i <= v@.len(),
            forall|j: int| 0 <= j < i ==> v@[j] != c,
        decreases v@.len() - i,
    {
        if v[i] == c {
            return true;
        }
        i = i + 1;
    }
    false
}

/// Collects the distinct variables of symbolic postfix text, in order of
/// first occurrence. Fails when a character is not part of the alphabet.
pub fn parse_formula_char(formula: &str) -> (r: Result<Vec<char>, FormulaError>)
    ensures
        r is Ok <==> letters_ok(formula@),
        r is Ok ==> r->Ok_0@ == distinct_letters(formula@),
        r is Err ==> r->Err_0 == FormulaError::MalformedFormula,
{
    let n = formula.unicode_len();
    let mut used: Vec<char> = Vec::new();
    let mut i: usize = 0;
    while i < n
        invariant
            i <= n,
            n == formula@.len(),
            letters_ok(formula@.take(i as int)),
            used@ == distinct_letters(formula@.take(i as int)),
        decreases n - i,
    {
        let c = formula.get_char(i);
        proof {
            assert(formula@.take(i as int + 1) =~= formula@.take(i as int).push(c));
            assert(formula@.take(i as int + 1).drop_last() =~= formula@.take(i as int));
        }
        let code = c as u32;
        if 65 <= code && code <= 90 {
            if !contains_char(&used, c) {
                used.push(c);
            }
        } else if c == '!' || c == '&' || c == '|' || c == '^' || c == '>' || c == '=' {
            // a connective leaves the collected variables unchanged
        } else {
            proof {
                assert(!letters_ok(formula@)) by {
                    assert(formula@[i as int] == c);
                }
            }
            return Err(FormulaError::MalformedFormula);
        }
        proof {
            assert(forall|j: int|
                0 <= j < i as int + 1 ==> is_variable(#[trigger] formula@.take(i as int + 1)[j])
                    || formula@.take(i as int + 1)[j] == '!' || is_binary_symbol(
                    formula@.take(i as int + 1)[j],
                ));
        }
        i = i + 1;
    }
    proof {
        assert(formula@.take(n as int) =~= formula@);
    }
    Ok(used)
}

} // verus!
