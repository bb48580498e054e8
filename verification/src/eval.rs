//! Evaluation of fully substituted formulas, substitution of truth values
//! for variables, and the brute-force satisfiability check and truth table
//! built on them. A row of the truth table is numbered by an integer whose
//! bits, most significant first, give each variable its value in sorted
//! position order.

use vstd::prelude::*;
use vstd::arithmetic::power2::pow2;
use vstd::arithmetic::power2::lemma_pow2_unfold;
use vstd::arithmetic::power2::lemma_pow2_strictly_increases;
use vstd::arithmetic::power2::lemma2_to64;
use vstd::arithmetic::power2::lemma2_to64_rest;

use crate::formula::FormulaError;
use crate::formula::Node;
use crate::formula::Operator;
use crate::formula::eval_env;
use crate::formula::literal_only;
use crate::formula::wf;
use crate::parser::distinct_letters;
use crate::parser::is_binary_symbol;
use crate::parser::is_variable;
use crate::parser::spec_run;
use crate::parser::spec_step;
use crate::parser::lemma_distinct_letters;
use crate::parser::lemma_distinct_letters_bound;
use crate::parser::lemma_parse_round_trip;
use crate::parser::letters_ok;
use crate::parser::parse_formula_binary;
use crate::parser::parse_formula_char;
use crate::parser::spec_parse;

verus! {

/// Evaluates a fully substituted, well-formed tree. The truth value does
/// not depend on any assignment, since no variable is left; reaching a
/// variable leaf is the `UnboundVariable` failure.
pub fn evaluate(node: &Node) -> (r: Result<bool, FormulaError>)
    requires
        wf(*node),
    ensures
        r is Ok <==> literal_only(*node),
        r is Ok ==> (forall|env: Map<char, bool>| r->Ok_0 == eval_env(*node, env)),
        r is Err ==> r->Err_0 == FormulaError::UnboundVariable,
    decreases *node,
{
    match node {
        Node::Bool(b) => {
            proof {
                assert forall|env: Map<char, bool>| *b == eval_env(*node, env) by {}
            }
            Ok(*b)
        }
        Node::Value(_) => Err(FormulaError::UnboundVariable),
        Node::UnaryExpr { op, child } => {
            match evaluate(child) {
                Ok(v) => {
                    proof {
                        assert forall|env: Map<char, bool>| !v == eval_env(*node, env) by {
                            assert(v == eval_env(**child, env));
                        }
                    }
                    Ok(!v)
                }
                Err(e) => Err(e),
            }
        }
        Node::BinaryExpr { op, lhs, rhs } => {
            match evaluate(lhs) {
                Err(e) => Err(e),
                Ok(l) => {
                    match evaluate(rhs) {
                        Err(e) => Err(e),
                        Ok(rv) => {
                            proof {
                                assert forall|env: Map<char, bool>|
                                    crate::formula::binary_truth(*op, l, rv) == eval_env(
                                        *node,
                                        env,
                                    ) by {
                                    assert(l == eval_env(**lhs, env));
                                    assert(rv == eval_env(**rhs, env));
                                }
                            }
                            match op {
                                Operator::Conjunction => Ok(l && rv),
                                Operator::Disjunction => Ok(l || rv),
                                Operator::ExclusiveDisjunction => Ok(l != rv),
                                Operator::MaterialCondition => Ok(!l || rv),
                                Operator::LogicalEquivalence => Ok(l == rv),
                                Operator::Negation => {
                                    proof {
                                        assert(false);
                                    }
                                    Err(FormulaError::UnboundVariable)
                                }
                            }
                        }
                    }
                }
            }
        }
    }
}

/// Whether the variable in the given sorted position is true on the given
/// row: its bit, counted from the most significant end.
pub open spec fn line_bit(line: nat, j: int, count: int) -> bool {
    ((line / pow2((count - 1 - j) as nat)) % 2) == 1
}

/// What a character of the formula becomes on the given row: a variable
/// turns into the digit of its truth value, everything else stays.
pub open spec fn subst_char(c: char, used: Seq<char>, line: nat) -> char {
    if used.contains(c) {
        if line_bit(line, used.index_of(c), used.len() as int) {
            '1'
        } else {
            '0'
        }
    } else {
        c
    }
}

/// The formula text with every variable replaced by its truth value on the
/// given row.
pub open spec fn subst_text(s: Seq<char>, used: Seq<char>, line: nat) -> Seq<char> {
    s.map_values(|c: char| subst_char(c, used, line))
}

/// Two raised to a small power.
pub fn pow2_u64(e: usize) -> (r: u64)
    requires
        e < 63,
    ensures
        r == pow2(e as nat),
        r >= 1,
{
    proof {
        lemma2_to64();
    }
    let mut r: u64 = 1;
    let mut k: usize = 0;
    while k < e
        invariant
            k <= e < 63,
            r == pow2(k as nat),
        decreases e - k,
    {
        proof {
            lemma2_to64();
            lemma2_to64_rest();
            lemma_pow2_strictly_increases(k as nat, 62);
            lemma_pow2_unfold((k + 1) as nat);
        }
        r = r * 2;
        k = k + 1;
    }
    proof {
        vstd::arithmetic::power2::lemma_pow2_pos(e as nat);
    }
    r
}

/// Builds the formula text for one row of the truth table, replacing each
/// variable with the digit of its value there.
pub fn substitute(line: u64, formula: &str, used: &[char]) -> (r: String)
    requires
        used@.len() < 63,
        used@.no_duplicates(),
    ensures
        r@ == subst_text(formula@, used@, line as nat),
{
    let n = formula.unicode_len();
    let count = used.len();
    let mut out = String::new();
    let mut i: usize = 0;
    while i < n
        invariant
            i <= n,
            n == formula@.len(),
            count == used@.len() < 63,
            used@.no_duplicates(),
            out@ == subst_text(formula@.take(i as int), used@, line as nat),
        decreases n - i,
    {
        let c = formula.get_char(i);
        let mut j: usize = 0;
        while j < count && used[j] != c
            invariant
                j <= count,
                count == used@.len(),
                forall|k: int| 0 <= k < j ==> used@[k] != c,
            decreases count - j,
        {
            j = j + 1;
        }
        if j < count {
            proof {
                assert(used@.contains(c));
                assert(used@.index_of(c) == j as int) by {
                    let idx = used@.index_of(c);
                    assert(used@[idx] == c);
                }
            }
            let p = pow2_u64(count - 1 - j);
            let bit = (line / p) % 2;
            crate::formula::push_char(&mut out, if bit == 1 {
                '1'
            } else {
                '0'
            });
        } else {
            proof {
                assert(!used@.contains(c)) by {
                    assert(forall|k: int| 0 <= k < used@.len() ==> #[trigger] used@[k] != c);
                }
            }
            crate::formula::push_char(&mut out, c);
        }
        proof {
            assert(subst_text(formula@.take(i as int + 1), used@, line as nat) =~= subst_text(
                formula@.take(i as int),
                used@,
                line as nat,
            ).push(subst_char(formula@[i as int], used@, line as nat)));
        }
        i = i + 1;
    }
    proof {
        assert(formula@.take(n as int) =~= formula@);
    }
    out
}

/// Substitutes the truth values of one truth-table row into the formula
/// text and parses the result. Fails exactly when the substituted text does
/// not parse.
pub fn give_value_to_char(current_line: i64, formula: &str, used_char: &[char]) -> (r: Result<
    Node,
    FormulaError,
>)
    requires
        0 <= current_line,
        used_char@.len() < 63,
        used_char@.no_duplicates(),
    ensures
        r is Ok <==> spec_parse(subst_text(formula@, used_char@, current_line as nat), true)
            is Some,
        r is Ok ==> Some(r->Ok_0) == spec_parse(
            subst_text(formula@, used_char@, current_line as nat),
            true,
        ),
        r is Err ==> r->Err_0 == FormulaError::MalformedFormula,
{
    let text = substitute(current_line as u64, formula, used_char);
    parse_formula_binary(text.as_str())
}

/// The tree of a substituted text: each variable replaced by the truth
/// value of its row.
pub open spec fn subst_node(n: Node, used: Seq<char>, line: nat) -> Node
    decreases n,
{
    match n {
        Node::Value(c) => if used.contains(c) {
            Node::Bool(line_bit(line, used.index_of(c), used.len() as int))
        } else {
            Node::Value(c)
        },
        Node::Bool(b) => Node::Bool(b),
        Node::UnaryExpr { op, child } => Node::UnaryExpr {
            op,
            child: Box::new(subst_node(*child, used, line)),
        },
        Node::BinaryExpr { op, lhs, rhs } => Node::BinaryExpr {
            op,
            lhs: Box::new(subst_node(*lhs, used, line)),
            rhs: Box::new(subst_node(*rhs, used, line)),
        },
    }
}

/// One machine step commutes with row substitution over the symbolic
/// alphabet: the substituted character succeeds on the substituted stack
/// exactly when the original character does on the original stack, and the
/// stacks stay in step.
proof fn lemma_subst_step(stack: Seq<Node>, c: char, used: Seq<char>, line: nat)
    requires
        is_variable(c) || c == '!' || is_binary_symbol(c),
        is_variable(c) ==> used.contains(c),
        forall|i: int| 0 <= i < used.len() ==> is_variable(#[trigger] used[i]),
    ensures
        spec_step(stack, c, false) is Some <==> spec_step(
            stack.map_values(|n: Node| subst_node(n, used, line)),
            subst_char(c, used, line),
            true,
        ) is Some,
        spec_step(stack, c, false) is Some ==> spec_step(
            stack.map_values(|n: Node| subst_node(n, used, line)),
            subst_char(c, used, line),
            true,
        )->0 == spec_step(stack, c, false)->0.map_values(|n: Node| subst_node(n, used, line)),
{
    let m = stack.map_values(|n: Node| subst_node(n, used, line));
    let d = subst_char(c, used, line);
    assert(m.len() == stack.len());
    if is_variable(c) {
        assert(used.contains(c));
        assert(d == '0' || d == '1');
        assert(spec_step(stack, c, false) == Some(stack.push(Node::Value(c))));
        let leaf = Node::Bool(line_bit(line, used.index_of(c), used.len() as int));
        assert(spec_step(m, d, true) == Some(m.push(leaf)));
        assert(stack.push(Node::Value(c)).map_values(|n: Node| subst_node(n, used, line)) =~= m.push(
            leaf,
        ));
    } else {
        // a connective is no variable and therefore never substituted
        assert(!used.contains(c)) by {
            if used.contains(c) {
                let w = choose|w: int| 0 <= w < used.len() && used[w] == c;
                assert(is_variable(used[w]));
            }
        }
        assert(d == c);
        if c == '!' {
            if stack.len() >= 1 {
                let kept = stack.take(stack.len() - 1);
                let built = Node::UnaryExpr {
                    op: Operator::Negation,
                    child: Box::new(stack.last()),
                };
                assert(m.take(m.len() - 1) =~= kept.map_values(
                    |n: Node| subst_node(n, used, line),
                ));
                assert(m.last() == subst_node(stack.last(), used, line));
                assert(subst_node(built, used, line) == Node::UnaryExpr {
                    op: Operator::Negation,
                    child: Box::new(subst_node(stack.last(), used, line)),
                });
                assert(kept.push(built).map_values(|n: Node| subst_node(n, used, line)) =~= m.take(
                    m.len() - 1,
                ).push(subst_node(built, used, line)));
            }
        } else {
            if stack.len() >= 2 {
                let kept = stack.take(stack.len() - 2);
                let built = Node::BinaryExpr {
                    op: crate::parser::symbol_op(c),
                    lhs: Box::new(stack[stack.len() - 2]),
                    rhs: Box::new(stack.last()),
                };
                assert(m.take(m.len() - 2) =~= kept.map_values(
                    |n: Node| subst_node(n, used, line),
                ));
                assert(m[m.len() - 2] == subst_node(stack[stack.len() - 2], used, line));
                assert(m.last() == subst_node(stack.last(), used, line));
                assert(kept.push(built).map_values(|n: Node| subst_node(n, used, line)) =~= m.take(
                    m.len() - 2,
                ).push(subst_node(built, used, line)));
            }
        }
    }
}

/// The whole machine run commutes with row substitution.
proof fn lemma_subst_run(stack: Seq<Node>, s: Seq<char>, used: Seq<char>, line: nat)
    requires
        letters_ok(s),
        forall|i: int| 0 <= i < used.len() ==> is_variable(#[trigger] used[i]),
        forall|c: char| #[trigger] s.contains(c) && is_variable(c) ==> used.contains(c),
    ensures
        spec_run(stack, s, false) is Some <==> spec_run(
            stack.map_values(|n: Node| subst_node(n, used, line)),
            subst_text(s, used, line),
            true,
        ) is Some,
        spec_run(stack, s, false) is Some ==> spec_run(
            stack.map_values(|n: Node| subst_node(n, used, line)),
            subst_text(s, used, line),
            true,
        )->0 == spec_run(stack, s, false)->0.map_values(|n: Node| subst_node(n, used, line)),
    decreases s.len(),
{
    let m = stack.map_values(|n: Node| subst_node(n, used, line));
    let ss = subst_text(s, used, line);
    assert(ss.len() == s.len());
    if s.len() > 0 {
        assert(ss[0] == subst_char(s[0], used, line));
        assert(s.contains(s[0])) by {
            assert(s[0] == s[0]);
        }
        lemma_subst_step(stack, s[0], used, line);
        match spec_step(stack, s[0], false) {
            Some(next) => {
                assert(ss.skip(1) =~= subst_text(s.skip(1), used, line));
                assert(letters_ok(s.skip(1))) by {
                    assert(forall|i: int| 0 <= i < s.skip(1).len() ==> s.skip(1)[i] == s[i + 1]);
                }
                assert(forall|c: char|
                    #[trigger] s.skip(1).contains(c) && is_variable(c) ==> used.contains(c)) by {
                    assert forall|c: char|
                        #[trigger] s.skip(1).contains(c) implies s.contains(c) by {
                        let w = choose|w: int| 0 <= w < s.skip(1).len() && s.skip(1)[w] == c;
                        assert(s[w + 1] == c);
                    }
                }
                lemma_subst_run(next, s.skip(1), used, line);
            }
            None => {
            }
        }
    }
}

/// Over the symbolic alphabet, substituting a row's truth values changes
/// nothing for the parser: every substituted row parses exactly when the
/// formula itself does.
pub proof fn lemma_subst_preserves_parse(s: Seq<char>, used: Seq<char>, line: nat)
    requires
        letters_ok(s),
        forall|i: int| 0 <= i < used.len() ==> is_variable(#[trigger] used[i]),
        forall|c: char| #[trigger] s.contains(c) && is_variable(c) ==> used.contains(c),
    ensures
        line_parses(s, used, line) <==> spec_parse(s, false) is Some,
{
    assert(Seq::<Node>::empty().map_values(|n: Node| subst_node(n, used, line)) =~= Seq::<
        Node,
    >::empty());
    lemma_subst_run(Seq::empty(), s, used, line);
    match spec_run(Seq::empty(), s, false) {
        Some(st) => {
            assert(spec_run(Seq::empty(), subst_text(s, used, line), true)->0 == st.map_values(
                |n: Node| subst_node(n, used, line),
            ));
        }
        None => {
    }
    }
}

/// Whether the formula text, substituted for the given row, parses.
pub open spec fn line_parses(s: Seq<char>, used: Seq<char>, line: nat) -> bool {
    spec_parse(subst_text(s, used, line), true) is Some
}

/// The truth value of the formula on the given row of its truth table.
pub open spec fn line_value(s: Seq<char>, used: Seq<char>, line: nat) -> bool {
    eval_env(spec_parse(subst_text(s, used, line), true)->0, Map::empty())
}

/// Brute-force satisfiability: whether some assignment of truth values to
/// the formula's variables makes it true. Fails exactly when a character is
/// outside the alphabet or some substituted row fails to parse.
pub fn sat(formula: &str) -> (r: Result<bool, FormulaError>)
    ensures
        r is Ok <==> (letters_ok(formula@) && (forall|line: nat|
            line < pow2(distinct_letters(formula@).len()) ==> #[trigger] line_parses(
                formula@,
                distinct_letters(formula@),
                line,
            ))),
        r is Ok ==> (r->Ok_0 <==> (exists|line: nat|
            line < pow2(distinct_letters(formula@).len()) && #[trigger] line_value(
                formula@,
                distinct_letters(formula@),
                line,
            ))),
        r is Err ==> r->Err_0 == FormulaError::MalformedFormula,
{
    let used = match parse_formula_char(formula) {
        Ok(u) => u,
        Err(e) => {
            return Err(e);
        }
    };
    proof {
        lemma_distinct_letters(formula@);
        lemma_distinct_letters_bound(formula@);
    }
    let total = pow2_u64(used.len());
    proof {
        lemma2_to64();
        if used@.len() < 26 {
            lemma_pow2_strictly_increases(used@.len(), 26);
        }
    }
    let mut found = false;
    let mut i: u64 = 0;
    while i < total
        invariant
            i <= total,
            total == pow2(used@.len()),
            total <= 0x4000000,
            used@ == distinct_letters(formula@),
            used@.len() <= 26,
            used@.no_duplicates(),
            forall|line: nat|
                line < i as nat ==> #[trigger] line_parses(formula@, used@, line),
            found <==> (exists|line: nat|
                line < i as nat && #[trigger] line_value(formula@, used@, line)),
        decreases total - i,
    {
        let node = match give_value_to_char(i as i64, formula, used.as_slice()) {
            Ok(node) => node,
            Err(e) => {
                proof {
                    assert(!line_parses(formula@, used@, i as nat));
                }
                return Err(e);
            }
        };
        proof {
            assert(line_parses(formula@, used@, i as nat));
            lemma_parse_round_trip(subst_text(formula@, used@, i as nat), true);
        }
        let val = match evaluate(&node) {
            Ok(v) => v,
            Err(_) => {
                proof {
                    assert(false);
                }
                return Err(FormulaError::MalformedFormula);
            }
        };
        if val {
            found = true;
            proof {
                assert(line_value(formula@, used@, i as nat));
            }
        }
        i = i + 1;
    }
    Ok(found)
}

/// The digit of a variable's truth value on a row.
pub open spec fn bit_digit(line: nat, j: int, count: int) -> char {
    if line_bit(line, j, count) {
        '1'
    } else {
        '0'
    }
}

/// The variable cells of one truth-table row, from position `j` on.
pub open spec fn row_cells(line: nat, j: int, count: int) -> Seq<char>
    decreases count - j,
{
    if j >= count {
        Seq::empty()
    } else {
        seq!['|', ' ', bit_digit(line, j, count), ' '] + row_cells(line, j + 1, count)
    }
}

/// The header cells of the truth table, from position `j` on, ending with
/// the result column.
pub open spec fn header_cells(used: Seq<char>, j: int) -> Seq<char>
    decreases used.len() - j,
{
    if j >= used.len() {
        seq!['|', ' ', '=', ' ', '|', '\n']
    } else {
        seq!['|', ' ', used[j], ' '] + header_cells(used, j + 1)
    }
}

/// The separator line of the truth table, with one dash group per column.
pub open spec fn separator_cells(cols: int) -> Seq<char>
    decreases cols,
{
    if cols <= 0 {
        seq!['|', '\n']
    } else {
        seq!['|', '-', '-', '-'] + separator_cells(cols - 1)
    }
}

/// One full row of the truth table.
pub open spec fn row_text(s: Seq<char>, used: Seq<char>, line: nat) -> Seq<char> {
    row_cells(line, 0, used.len() as int) + seq![
        '|',
        ' ',
        if line_value(s, used, line) {
            '1'
        } else {
            '0'
        },
        ' ',
        '|',
        '\n',
    ]
}

/// The rows of the truth table from row `line` up to `total`.
pub open spec fn rows_text(s: Seq<char>, used: Seq<char>, line: nat, total: nat) -> Seq<char>
    decreases total - line,
{
    if line >= total {
        Seq::empty()
    } else {
        row_text(s, used, line) + rows_text(s, used, line + 1, total)
    }
}

/// The whole truth table of a formula: header, separator, and one row for
/// each assignment of its variables.
pub open spec fn truth_table_text(s: Seq<char>) -> Seq<char> {
    header_cells(distinct_letters(s), 0) + separator_cells(distinct_letters(s).len() as int + 1)
        + rows_text(s, distinct_letters(s), 0, pow2(distinct_letters(s).len()))
}

/// Renders the full truth table of a symbolic formula: one column per
/// variable in order of first occurrence, one row per assignment, the
/// result in the last column. Fails exactly when a character is outside the
/// alphabet or some substituted row fails to parse.
pub fn print_truth_table(formula: &str) -> (r: Result<String, FormulaError>)
    ensures
        r is Ok <==> (letters_ok(formula@) && (forall|line: nat|
            line < pow2(distinct_letters(formula@).len()) ==> #[trigger] line_parses(
                formula@,
                distinct_letters(formula@),
                line,
            ))),
        r is Ok ==> r->Ok_0@ == truth_table_text(formula@),
        r is Err ==> r->Err_0 == FormulaError::MalformedFormula,
{
    let used = match parse_formula_char(formula) {
        Ok(u) => u,
        Err(e) => {
            return Err(e);
        }
    };
    proof {
        lemma_distinct_letters(formula@);
        lemma_distinct_letters_bound(formula@);
    }
    let count = used.len();
    let mut out = String::new();
    // header
    let mut j: usize = 0;
    while j < count
        invariant
            j <= count,
            count == used@.len(),
            header_cells(used@, 0) == out@ + header_cells(used@, j as int),
        decreases count - j,
    {
        crate::formula::push_char(&mut out, '|');
        crate::formula::push_char(&mut out, ' ');
        crate::formula::push_char(&mut out, used[j]);
        crate::formula::push_char(&mut out, ' ');
        proof {
            assert(header_cells(used@, 0) == out@ + header_cells(used@, j as int + 1)) by {
                assert(header_cells(used@, j as int) =~= seq!['|', ' ', used@[j as int], ' ']
                    + header_cells(used@, j as int + 1));
                assert(out@ + header_cells(used@, j as int + 1) =~= header_cells(used@, 0));
            }
        }
        j = j + 1;
    }
    crate::formula::push_char(&mut out, '|');
    crate::formula::push_char(&mut out, ' ');
    crate::formula::push_char(&mut out, '=');
    crate::formula::push_char(&mut out, ' ');
    crate::formula::push_char(&mut out, '|');
    crate::formula::push_char(&mut out, '\n');
    proof {
        assert(out@ =~= header_cells(used@, 0));
    }
    // separator
    let ghost header = out@;
    let mut dashes: usize = 0;
    while dashes < count + 1
        invariant
            dashes <= count + 1,
            count == used@.len() <= 26,
            header == header_cells(used@, 0),
            header + separator_cells(count as int + 1) == out@ + separator_cells(
                count as int + 1 - dashes as int,
            ),
        decreases count + 1 - dashes,
    {
        crate::formula::push_char(&mut out, '|');
        crate::formula::push_char(&mut out, '-');
        crate::formula::push_char(&mut out, '-');
        crate::formula::push_char(&mut out, '-');
        proof {
            let left = count as int + 1 - dashes as int;
            assert(separator_cells(left) =~= seq!['|', '-', '-', '-'] + separator_cells(left - 1));
            assert(header + separator_cells(count as int + 1) =~= out@ + separator_cells(left - 1));
        }
        dashes = dashes + 1;
    }
    crate::formula::push_char(&mut out, '|');
    crate::formula::push_char(&mut out, '\n');
    proof {
        assert(separator_cells(0) =~= seq!['|', '\n']);
        assert(out@ =~= header_cells(used@, 0) + separator_cells(count as int + 1));
    }
    // rows
    let ghost prefix = out@;
    let total = pow2_u64(count);
    proof {
        lemma2_to64();
        if used@.len() < 26 {
            lemma_pow2_strictly_increases(used@.len(), 26);
        }
    }
    let mut line: u64 = 0;
    while line < total
        invariant
            line <= total,
            total == pow2(used@.len()),
            total <= 0x4000000,
            count == used@.len() <= 26,
            used@ == distinct_letters(formula@),
            used@.no_duplicates(),
            prefix == header_cells(used@, 0) + separator_cells(count as int + 1),
            forall|k: nat| k < line as nat ==> #[trigger] line_parses(formula@, used@, k),
            prefix + rows_text(formula@, used@, 0, total as nat) == out@ + rows_text(
                formula@,
                used@,
                line as nat,
                total as nat,
            ),
        decreases total - line,
    {
        let node = match give_value_to_char(line as i64, formula, used.as_slice()) {
            Ok(node) => node,
            Err(e) => {
                proof {
                    assert(!line_parses(formula@, used@, line as nat));
                }
                return Err(e);
            }
        };
        proof {
            assert(line_parses(formula@, used@, line as nat));
            lemma_parse_round_trip(subst_text(formula@, used@, line as nat), true);
        }
        let val = match evaluate(&node) {
            Ok(v) => v,
            Err(_) => {
                proof {
                    assert(false);
                }
                return Err(FormulaError::MalformedFormula);
            }
        };
        let ghost row_start = out@;
        let mut j: usize = 0;
        while j < count
            invariant
                j <= count,
                count == used@.len() < 63,
                row_start + row_cells(line as nat, 0, count as int) == out@ + row_cells(
                    line as nat,
                    j as int,
                    count as int,
                ),
            decreases count - j,
        {
            let p = pow2_u64(count - 1 - j);
            let bit = (line / p) % 2;
            crate::formula::push_char(&mut out, '|');
            crate::formula::push_char(&mut out, ' ');
            crate::formula::push_char(&mut out, if bit == 1 {
                '1'
            } else {
                '0'
            });
            crate::formula::push_char(&mut out, ' ');
            proof {
                let jj = j as int;
                assert(row_cells(line as nat, jj, count as int) =~= seq![
                    '|',
                    ' ',
                    bit_digit(line as nat, jj, count as int),
                    ' ',
                ] + row_cells(line as nat, jj + 1, count as int));
                assert(row_start + row_cells(line as nat, 0, count as int) =~= out@ + row_cells(
                    line as nat,
                    jj + 1,
                    count as int,
                ));
            }
            j = j + 1;
        }
        crate::formula::push_char(&mut out, '|');
        crate::formula::push_char(&mut out, ' ');
        crate::formula::push_char(&mut out, if val {
            '1'
        } else {
            '0'
        });
        crate::formula::push_char(&mut out, ' ');
        crate::formula::push_char(&mut out, '|');
        crate::formula::push_char(&mut out, '\n');
        proof {
            assert(row_cells(line as nat, count as int, count as int) =~= Seq::<char>::empty());
            assert(out@ =~= row_start + row_text(formula@, used@, line as nat));
            assert(rows_text(formula@, used@, line as nat, total as nat) =~= row_text(
                formula@,
                used@,
                line as nat,
            ) + rows_text(formula@, used@, line as nat + 1, total as nat));
            assert(prefix + rows_text(formula@, used@, 0, total as nat) =~= out@ + rows_text(
                formula@,
                used@,
                line as nat + 1,
                total as nat,
            ));
        }
        line = line + 1;
    }
    proof {
        assert(rows_text(formula@, used@, total as nat, total as nat) =~= Seq::<char>::empty());
        assert(out@ =~= truth_table_text(formula@));
    }
    Ok(out)
}

} // verus!
