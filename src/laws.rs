//! Laws of the parser, proved over the grammar that `parse` follows.
use vstd::prelude::*;
use crate::ast::{
    statement_units_well_formed, units_well_formed, ExprModel, NumberModel, Statement,
    StatementModel, UnitModel,
};
use crate::grammar::{
    add_op, additive, additive_rest, alnum_run, argument_list, call_arguments, char_is,
    constant, conversions, digit_run, digits_value, expr, fits_i64, is_alnum, is_digit,
    is_letter, is_space, mul_op, multiplicative, multiplicative_rest, number, operand,
    operation, power, remaining, skip, space_run, statement, trim_leading_zeros,
    trim_trailing_zeros, unit_term, units, Failure, Parsed,
};
use crate::parser::{parse_outcome, ParseError};

verus! {

/// Parsing is deterministic: two parses of the same text give structurally
/// equal trees, or fail at the same place for the same reason.
pub proof fn lemma_parse_deterministic(
    s: Seq<char>,
    a: Result<Statement, ParseError>,
    b: Result<Statement, ParseError>,
)
    requires
        parse_outcome(s, a),
        parse_outcome(s, b),
    ensures
        a is Ok <==> b is Ok,
        a is Ok ==> a->Ok_0@ == b->Ok_0@,
        a is Err ==> a->Err_0@ == b->Err_0@,
{
}

proof fn lemma_digit_run_to_end(s: Seq<char>, k: int)
    requires
        0 <= k <= s.len(),
        forall|m: int| k <= m < s.len() ==> is_digit(#[trigger] s[m]),
    ensures
        digit_run(s, k) == s.len() - k,
    decreases s.len() - k,
{
    if k < s.len() {
        lemma_digit_run_to_end(s, k + 1);
    }
}

/// A literal that takes the whole text `s`, from `0` to its end, is the
/// whole statement.
proof fn lemma_whole_literal(s: Seq<char>, value: NumberModel)
    requires
        s.len() > 0,
        is_digit(s[0]),
        number(s, 0) == Ok::<(NumberModel, nat), Failure>((value, s.len())),
    ensures
        statement(s) == Ok::<StatementModel, Failure>(
            StatementModel::Expression(ExprModel::Constant { value, units: None }),
        ),
{
    let n = s.len() as int;
    let c = ExprModel::Constant { value, units: None };
    assert(units(s, n, Seq::<UnitModel>::empty()) == Ok::<(Seq<UnitModel>, nat), Failure>(
        (Seq::empty(), 0),
    ));
    assert(constant(s, 0) == Ok::<(ExprModel, nat), Failure>((c, n as nat)));
    assert(operand(s, 0) == Ok::<(ExprModel, nat), Failure>((c, n as nat)));
    assert(power(s, 0) == Ok::<(ExprModel, nat), Failure>((c, n as nat)));
    assert(multiplicative_rest(s, n, c) == Ok::<(ExprModel, nat), Failure>((c, 0)));
    assert(multiplicative(s, 0) == Ok::<(ExprModel, nat), Failure>((c, n as nat)));
    assert(additive_rest(s, n, c) == Ok::<(ExprModel, nat), Failure>((c, 0)));
    assert(additive(s, 0) == Ok::<(ExprModel, nat), Failure>((c, n as nat)));
    assert(conversions(s, n, c) == Ok::<(ExprModel, nat), Failure>((c, 0)));
    assert(expr(s, 0) == Ok::<(ExprModel, nat), Failure>((c, n as nat)));
}

/// A text of digits alone whose value fits in a signed 64-bit integer
/// parses to that integer, without units.
pub proof fn lemma_integer_literal(s: Seq<char>)
    requires
        s.len() > 0,
        forall|m: int| 0 <= m < s.len() ==> is_digit(#[trigger] s[m]),
        fits_i64(digits_value(s) as int),
    ensures
        statement(s) == Ok::<StatementModel, Failure>(
            StatementModel::Expression(
                ExprModel::Constant {
                    value: NumberModel::Integer(digits_value(s) as int),
                    units: None,
                },
            ),
        ),
{
    lemma_digit_run_to_end(s, 1);
    assert(s.subrange(0, s.len() as int) =~= s);
    lemma_whole_literal(s, NumberModel::Integer(digits_value(s) as int));
}

/// A text of digits, a point and digits parses to that decimal, without
/// units.
pub proof fn lemma_decimal_literal(whole: Seq<char>, fraction: Seq<char>)
    requires
        whole.len() > 0,
        fraction.len() > 0,
        forall|m: int| 0 <= m < whole.len() ==> is_digit(#[trigger] whole[m]),
        forall|m: int| 0 <= m < fraction.len() ==> is_digit(#[trigger] fraction[m]),
    ensures
        statement(whole + seq!['.'] + fraction) == Ok::<StatementModel, Failure>(
            StatementModel::Expression(
                ExprModel::Constant {
                    value: NumberModel::Decimal {
                        whole: trim_leading_zeros(whole),
                        fraction: trim_trailing_zeros(fraction),
                    },
                    units: None,
                },
            ),
        ),
{
    let s = whole + seq!['.'] + fraction;
    let w = whole.len() as int;
    assert(s[w] == '.');
    assert forall|m: int| 1 <= m < w implies is_digit(#[trigger] s[m]) by {
        assert(s[m] == whole[m]);
    }
    assert(whole.len() == s.subrange(0, w).len());
    lemma_digit_run_prefix(s, 1, w);
    assert forall|m: int| w + 1 <= m < s.len() implies is_digit(#[trigger] s[m]) by {
        assert(s[m] == fraction[m - w - 1]);
    }
    lemma_digit_run_to_end(s, w + 1);
    assert(s.subrange(0, w) =~= whole);
    assert(s.subrange(w + 1, s.len() as int) =~= fraction);
    assert(is_digit(s[0])) by {
        assert(s[0] == whole[0]);
    }
    lemma_whole_literal(
        s,
        NumberModel::Decimal {
            whole: trim_leading_zeros(whole),
            fraction: trim_trailing_zeros(fraction),
        },
    );
}

/// A run of digits that stops at a non-digit at `e`.
proof fn lemma_digit_run_prefix(s: Seq<char>, k: int, e: int)
    requires
        0 <= k <= e < s.len(),
        forall|m: int| k <= m < e ==> is_digit(#[trigger] s[m]),
        !is_digit(s[e]),
    ensures
        digit_run(s, k) == e - k,
    decreases e - k,
{
    if k < e {
        lemma_digit_run_prefix(s, k + 1, e);
    }
}

/// A character that can end a well-formed expression: a letter, a digit or
/// `)`.
pub open spec fn closes(c: char) -> bool {
    is_alnum(c) || c == ')'
}

/// `n` characters from `start` on lie within `s` and end with one that
/// closes an expression.
pub open spec fn ends_closed(s: Seq<char>, start: int, n: nat) -> bool {
    n > 0 && start + n <= s.len() && closes(s[start + n - 1])
}

/// A successful production consumed characters ending with one that closes.
pub open spec fn closed_outcome<T>(s: Seq<char>, start: int, r: Parsed<T>) -> bool {
    r is Ok ==> ends_closed(s, start, r->Ok_0.1)
}

/// A successful continuation consumed nothing, or characters ending with
/// one that closes.
pub open spec fn closed_or_empty_outcome<T>(s: Seq<char>, start: int, r: Parsed<T>) -> bool {
    r is Ok ==> (r->Ok_0.1 == 0 || ends_closed(s, start, r->Ok_0.1))
}

proof fn lemma_space_run(s: Seq<char>, k: int)
    requires
        0 <= k <= s.len(),
    ensures
        k + space_run(s, k) <= s.len(),
        forall|m: int| k <= m < k + space_run(s, k) ==> is_space(#[trigger] s[m]),
    decreases s.len() - k,
{
    if k < s.len() {
        lemma_space_run(s, k + 1);
    }
}

proof fn lemma_digit_run(s: Seq<char>, k: int)
    requires
        0 <= k <= s.len(),
    ensures
        k + digit_run(s, k) <= s.len(),
        forall|m: int| k <= m < k + digit_run(s, k) ==> is_digit(#[trigger] s[m]),
    decreases s.len() - k,
{
    if k < s.len() {
        lemma_digit_run(s, k + 1);
    }
}

proof fn lemma_alnum_run(s: Seq<char>, k: int)
    requires
        0 <= k <= s.len(),
    ensures
        k + alnum_run(s, k) <= s.len(),
        forall|m: int| k <= m < k + alnum_run(s, k) ==> is_alnum(#[trigger] s[m]),
    decreases s.len() - k,
{
    if k < s.len() {
        lemma_alnum_run(s, k + 1);
    }
}

proof fn lemma_number_closed(s: Seq<char>, p: int)
    requires
        0 <= p < s.len(),
        is_digit(s[p]),
    ensures
        closed_outcome(s, p, number(s, p)),
{
    lemma_digit_run(s, p + 1);
    let j = p + 1 + digit_run(s, p + 1);
    if j < s.len() {
        lemma_digit_run(s, j + 1);
    }
}

proof fn lemma_unit_term_closed(s: Seq<char>, p: int)
    requires
        0 <= p < s.len(),
        is_letter(s[p]),
    ensures
        closed_outcome(s, p, unit_term(s, p)),
{
    lemma_alnum_run(s, p + 1);
    let q = p + 1 + alnum_run(s, p + 1);
    if q + 1 < s.len() {
        lemma_digit_run(s, q + 2);
    }
    if q < s.len() {
        lemma_digit_run(s, q + 1);
    }
}

proof fn lemma_units_closed(s: Seq<char>, i: int, acc: Seq<UnitModel>)
    requires
        0 <= i <= s.len(),
    ensures
        closed_or_empty_outcome(s, i, units(s, i, acc)),
    decreases remaining(s, i),
{
    lemma_space_run(s, i);
    let p = skip(s, i);
    if 0 <= p < s.len() && is_letter(s[p]) {
        lemma_unit_term_closed(s, p);
        if let Ok((u, n)) = unit_term(s, p) {
            lemma_units_closed(s, p + n, acc.push(u));
        }
    }
}

proof fn lemma_constant_closed(s: Seq<char>, p: int)
    requires
        0 <= p < s.len(),
        is_digit(s[p]),
    ensures
        closed_outcome(s, p, constant(s, p)),
{
    lemma_number_closed(s, p);
    if let Ok((v, n)) = number(s, p) {
        lemma_units_closed(s, p + n, Seq::empty());
    }
}

proof fn lemma_expr_closed(s: Seq<char>, i: int)
    requires
        0 <= i <= s.len(),
    ensures
        closed_outcome(s, i, expr(s, i)),
    decreases remaining(s, i), 4nat,
{
    lemma_additive_closed(s, i);
    if let Ok((e, n)) = additive(s, i) {
        lemma_conversions_closed(s, i + n, e);
    }
}

proof fn lemma_conversions_closed(s: Seq<char>, i: int, value: ExprModel)
    requires
        0 <= i <= s.len(),
    ensures
        closed_or_empty_outcome(s, i, conversions(s, i, value)),
    decreases remaining(s, i), 0nat,
{
    lemma_space_run(s, i);
    let p = skip(s, i);
    if char_is(s, p, '-') && char_is(s, p + 1, '>') {
        lemma_space_run(s, p + 2);
        let q = skip(s, p + 2);
        if 0 <= q < s.len() && is_letter(s[q]) {
            lemma_unit_term_closed(s, q);
            if let Ok((u, n)) = unit_term(s, q) {
                lemma_conversions_closed(
                    s,
                    q + n,
                    ExprModel::Conversion { target_unit: u, value: Box::new(value) },
                );
            }
        }
    }
}

proof fn lemma_additive_closed(s: Seq<char>, i: int)
    requires
        0 <= i <= s.len(),
    ensures
        closed_outcome(s, i, additive(s, i)),
    decreases remaining(s, i), 3nat,
{
    lemma_multiplicative_closed(s, i);
    if let Ok((e, n)) = multiplicative(s, i) {
        lemma_additive_rest_closed(s, i + n, e);
    }
}

proof fn lemma_additive_rest_closed(s: Seq<char>, i: int, lhs: ExprModel)
    requires
        0 <= i <= s.len(),
    ensures
        closed_or_empty_outcome(s, i, additive_rest(s, i, lhs)),
    decreases remaining(s, i), 0nat,
{
    lemma_space_run(s, i);
    let p = skip(s, i);
    if let Some((op, w)) = add_op(s, p) {
        lemma_multiplicative_closed(s, p + w);
        if let Ok((rhs, n)) = multiplicative(s, p + w) {
            lemma_additive_rest_closed(s, p + w + n, operation(op, lhs, rhs));
        }
    }
}

proof fn lemma_multiplicative_closed(s: Seq<char>, i: int)
    requires
        0 <= i <= s.len(),
    ensures
        closed_outcome(s, i, multiplicative(s, i)),
    decreases remaining(s, i), 2nat,
{
    lemma_power_closed(s, i);
    if let Ok((e, n)) = power(s, i) {
        lemma_multiplicative_rest_closed(s, i + n, e);
    }
}

proof fn lemma_multiplicative_rest_closed(s: Seq<char>, i: int, lhs: ExprModel)
    requires
        0 <= i <= s.len(),
    ensures
        closed_or_empty_outcome(s, i, multiplicative_rest(s, i, lhs)),
    decreases remaining(s, i), 0nat,
{
    lemma_space_run(s, i);
    let p = skip(s, i);
    if let Some((op, w)) = mul_op(s, p) {
        lemma_power_closed(s, p + w);
        if let Ok((rhs, n)) = power(s, p + w) {
            lemma_multiplicative_rest_closed(s, p + w + n, operation(op, lhs, rhs));
        }
    }
}

proof fn lemma_power_closed(s: Seq<char>, i: int)
    requires
        0 <= i <= s.len(),
    ensures
        closed_outcome(s, i, power(s, i)),
    decreases remaining(s, i), 1nat,
{
    lemma_operand_closed(s, i);
    if let Ok((b, n)) = operand(s, i) {
        lemma_space_run(s, i + n);
        let p = skip(s, i + n);
        if char_is(s, p, '^') {
            lemma_power_closed(s, p + 1);
        }
    }
}

proof fn lemma_operand_closed(s: Seq<char>, i: int)
    requires
        0 <= i <= s.len(),
    ensures
        closed_outcome(s, i, operand(s, i)),
    decreases remaining(s, i), 0nat,
{
    lemma_space_run(s, i);
    let p = skip(s, i);
    if 0 <= p < s.len() {
        if s[p] == '(' {
            lemma_expr_closed(s, p + 1);
            lemma_parenthesised_closed(s, i, p);
        } else if is_digit(s[p]) {
            lemma_constant_closed(s, p);
            lemma_constant_operand_closed(s, i, p);
        } else if is_letter(s[p]) {
            lemma_alnum_run(s, p + 1);
            let q = p + 1 + alnum_run(s, p + 1);
            lemma_space_run(s, q);
            let r = skip(s, q);
            if char_is(s, r, '(') {
                lemma_call_arguments_closed(s, r + 1, s.subrange(p, q));
            }
            lemma_named_operand_closed(s, i, p, q, r);
        }
    }
}

/// The step of `operand` that reads a number with its units.
proof fn lemma_constant_operand_closed(s: Seq<char>, i: int, p: int)
    requires
        0 <= i <= p < s.len(),
        p == skip(s, i),
        is_digit(s[p]),
        closed_outcome(s, p, constant(s, p)),
    ensures
        closed_outcome(s, i, operand(s, i)),
{
}

/// The step of `operand` that reads a name: a call or a variable.
proof fn lemma_named_operand_closed(s: Seq<char>, i: int, p: int, q: int, r: int)
    requires
        0 <= i <= p < q <= r <= s.len(),
        p == skip(s, i),
        is_letter(s[p]),
        q == p + 1 + alnum_run(s, p + 1),
        r == skip(s, q),
        is_alnum(s[q - 1]),
        char_is(s, r, '(') ==> closed_outcome(s, r + 1, call_arguments(s, r + 1, s.subrange(p, q))),
    ensures
        closed_outcome(s, i, operand(s, i)),
{
}

/// The step of `operand` that closes a parenthesised expression.
proof fn lemma_parenthesised_closed(s: Seq<char>, i: int, p: int)
    requires
        0 <= i <= p < s.len(),
        p == skip(s, i),
        s[p] == '(',
        closed_outcome(s, p + 1, expr(s, p + 1)),
    ensures
        closed_outcome(s, i, operand(s, i)),
{
    if let Ok((e, n)) = expr(s, p + 1) {
        lemma_space_run(s, p + 1 + n);
    }
}

proof fn lemma_call_arguments_closed(s: Seq<char>, i: int, name: Seq<char>)
    requires
        0 <= i <= s.len(),
    ensures
        closed_outcome(s, i, call_arguments(s, i, name)),
    decreases remaining(s, i), 6nat,
{
    lemma_space_run(s, i);
    let p = skip(s, i);
    if !char_is(s, p, ')') {
        lemma_argument_list_closed(s, p, name, Seq::empty());
    }
}

proof fn lemma_argument_list_closed(s: Seq<char>, i: int, name: Seq<char>, acc: Seq<ExprModel>)
    requires
        0 <= i <= s.len(),
    ensures
        closed_outcome(s, i, argument_list(s, i, name, acc)),
    decreases remaining(s, i), 5nat,
{
    lemma_expr_closed(s, i);
    if let Ok((e, n)) = expr(s, i) {
        lemma_space_run(s, i + n);
        let q = skip(s, i + n);
        if char_is(s, q, ',') {
            lemma_argument_list_closed(s, q + 1, name, acc.push(e));
        }
    }
}

/// A text whose last character other than whitespace is neither a letter,
/// a digit nor `)` is refused: a dangling operator, an unclosed `(`, a unit
/// term cut off after its `_`.
pub proof fn lemma_open_ending_fails(s: Seq<char>, k: int)
    requires
        0 <= k < s.len(),
        !is_space(s[k]),
        !closes(s[k]),
        forall|m: int| k < m < s.len() ==> is_space(#[trigger] s[m]),
    ensures
        statement(s) is Err,
{
    lemma_space_run(s, 0);
    let p = skip(s, 0);
    lemma_alnum_run(s, p + 1);
    let q = p + 1 + alnum_run(s, p + 1);
    if 0 <= p < s.len() && is_letter(s[p]) {
        lemma_space_run(s, q);
    }
    let r = skip(s, q);
    let start = if 0 <= p < s.len() && is_letter(s[p]) && char_is(s, r, '=') {
        r + 1
    } else {
        0
    };
    lemma_expr_closed(s, start);
    if let Ok((e, n)) = expr(s, start) {
        lemma_space_run(s, start + n);
        if skip(s, start + n) == s.len() {
            // Only whitespace follows the expression, which ends with a
            // character that closes: that character would be the last one
            // other than whitespace, `s[k]`.
            let last = start + n - 1;
            if last < k {
                assert(is_space(s[k]));
            } else if last > k {
                assert(is_space(s[last]));
            }
        }
    }
}

/// A successful production built a tree whose numbers carry no empty list
/// of units.
pub open spec fn well_formed_outcome(r: Parsed<ExprModel>) -> bool {
    r is Ok ==> units_well_formed(r->Ok_0.0)
}

proof fn lemma_expr_well_formed(s: Seq<char>, i: int)
    ensures
        well_formed_outcome(expr(s, i)),
    decreases remaining(s, i), 4nat,
{
    lemma_additive_well_formed(s, i);
    if let Ok((e, n)) = additive(s, i) {
        lemma_conversions_well_formed(s, i + n, e);
    }
}

proof fn lemma_conversions_well_formed(s: Seq<char>, i: int, value: ExprModel)
    requires
        units_well_formed(value),
    ensures
        well_formed_outcome(conversions(s, i, value)),
    decreases remaining(s, i), 0nat,
{
    let p = skip(s, i);
    if char_is(s, p, '-') && char_is(s, p + 1, '>') {
        let q = skip(s, p + 2);
        if 0 <= q < s.len() && is_letter(s[q]) {
            if let Ok((u, n)) = unit_term(s, q) {
                lemma_conversions_well_formed(
                    s,
                    q + n,
                    ExprModel::Conversion { target_unit: u, value: Box::new(value) },
                );
            }
        }
    }
}

proof fn lemma_additive_well_formed(s: Seq<char>, i: int)
    ensures
        well_formed_outcome(additive(s, i)),
    decreases remaining(s, i), 3nat,
{
    lemma_multiplicative_well_formed(s, i);
    if let Ok((e, n)) = multiplicative(s, i) {
        lemma_additive_rest_well_formed(s, i + n, e);
    }
}

proof fn lemma_additive_rest_well_formed(s: Seq<char>, i: int, lhs: ExprModel)
    requires
        units_well_formed(lhs),
    ensures
        well_formed_outcome(additive_rest(s, i, lhs)),
    decreases remaining(s, i), 0nat,
{
    let p = skip(s, i);
    if let Some((op, w)) = add_op(s, p) {
        lemma_multiplicative_well_formed(s, p + w);
        if let Ok((rhs, n)) = multiplicative(s, p + w) {
            lemma_additive_rest_well_formed(s, p + w + n, operation(op, lhs, rhs));
        }
    }
}

proof fn lemma_multiplicative_well_formed(s: Seq<char>, i: int)
    ensures
        well_formed_outcome(multiplicative(s, i)),
    decreases remaining(s, i), 2nat,
{
    lemma_power_well_formed(s, i);
    if let Ok((e, n)) = power(s, i) {
        lemma_multiplicative_rest_well_formed(s, i + n, e);
    }
}

proof fn lemma_multiplicative_rest_well_formed(s: Seq<char>, i: int, lhs: ExprModel)
    requires
        units_well_formed(lhs),
    ensures
        well_formed_outcome(multiplicative_rest(s, i, lhs)),
    decreases remaining(s, i), 0nat,
{
    let p = skip(s, i);
    if let Some((op, w)) = mul_op(s, p) {
        lemma_power_well_formed(s, p + w);
        if let Ok((rhs, n)) = power(s, p + w) {
            lemma_multiplicative_rest_well_formed(s, p + w + n, operation(op, lhs, rhs));
        }
    }
}

proof fn lemma_power_well_formed(s: Seq<char>, i: int)
    ensures
        well_formed_outcome(power(s, i)),
    decreases remaining(s, i), 1nat,
{
    lemma_operand_well_formed(s, i);
    if let Ok((b, n)) = operand(s, i) {
        let p = skip(s, i + n);
        if char_is(s, p, '^') {
            lemma_power_well_formed(s, p + 1);
        }
    }
}

proof fn lemma_operand_well_formed(s: Seq<char>, i: int)
    ensures
        well_formed_outcome(operand(s, i)),
    decreases remaining(s, i), 0nat,
{
    let p = skip(s, i);
    if 0 <= p < s.len() {
        if s[p] == '(' {
            lemma_expr_well_formed(s, p + 1);
        } else if is_letter(s[p]) {
            let q = p + 1 + alnum_run(s, p + 1);
            let r = skip(s, q);
            if char_is(s, r, '(') {
                lemma_call_arguments_well_formed(s, r + 1, s.subrange(p, q));
            }
        }
    }
}

proof fn lemma_call_arguments_well_formed(s: Seq<char>, i: int, name: Seq<char>)
    ensures
        well_formed_outcome(call_arguments(s, i, name)),
    decreases remaining(s, i), 6nat,
{
    let p = skip(s, i);
    if !char_is(s, p, ')') {
        lemma_argument_list_well_formed(s, p, name, Seq::empty());
    }
}

proof fn lemma_argument_list_well_formed(
    s: Seq<char>,
    i: int,
    name: Seq<char>,
    acc: Seq<ExprModel>,
)
    requires
        forall|k: int| 0 <= k < acc.len() ==> units_well_formed(#[trigger] acc[k]),
    ensures
        well_formed_outcome(argument_list(s, i, name, acc)),
    decreases remaining(s, i), 5nat,
{
    lemma_expr_well_formed(s, i);
    if let Ok((e, n)) = expr(s, i) {
        let args = acc.push(e);
        assert forall|k: int| 0 <= k < args.len() implies units_well_formed(#[trigger] args[k]) by {
            if k < acc.len() {
                assert(args[k] == acc[k]);
            }
        }
        let q = skip(s, i + n);
        if char_is(s, q, ',') {
            lemma_argument_list_well_formed(s, q + 1, name, args);
        }
    }
}

/// A parsed statement never holds a number with an empty list of units.
pub proof fn lemma_units_never_empty(s: Seq<char>)
    ensures
        statement(s) is Ok ==> statement_units_well_formed(statement(s)->Ok_0),
{
    let p = skip(s, 0);
    let q = p + 1 + alnum_run(s, p + 1);
    let r = skip(s, q);
    lemma_expr_well_formed(s, r + 1);
    lemma_expr_well_formed(s, 0);
}

} // verus!
