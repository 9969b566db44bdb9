//! The language, stated as a deterministic grammar over the characters of
//! the source text.
//!
//! Each production starts at a position, skips leading whitespace where a
//! token may start, and yields its tree with the number of characters it
//! consumed, or the position of the first offending character with what was
//! expected there.
//!
//! Surface syntax: `+ - * / ^` are the usual operators, `//` is floor
//! division, `%` is modulo, `name = expr` assigns, `expr -> unit` converts,
//! and a number may carry unit terms such as `kg`, `m_2` or `s_-1`. Names
//! and unit symbols are runs of ASCII letters and digits that start with a
//! letter; spaces, tabs and line breaks may stand between any two tokens,
//! but not inside a number or a unit term. There is no unary minus: `-2`
//! is refused.
use vstd::prelude::*;
use crate::ast::{ExprModel, NumberModel, OpType, StatementModel, UnitModel};

verus! {

/// What the parser expected where it stopped.
#[derive(Clone, Copy, Debug, PartialEq, Eq, Structural)]
pub enum Expected {
    /// A number, a name or `(`.
    Operand,
    /// `)` closing a parenthesised expression.
    CloseParen,
    /// `,` or `)` in an argument list.
    CommaOrCloseParen,
    /// A digit: after a decimal point or in a unit exponent.
    Digit,
    /// A unit symbol after `->`.
    UnitSymbol,
    /// The end of the text.
    EndOfInput,
    /// A literal that fits in a signed 64-bit integer.
    SmallerNumber,
}

/// A failure: the offending position and what was expected there.
pub type Failure = (int, Expected);

/// A production's outcome: its value and the number of characters consumed.
pub type Parsed<T> = Result<(T, nat), Failure>;

pub open spec fn is_space(c: char) -> bool {
    c == ' ' || c == '\t' || c == '\n' || c == '\r'
}

pub open spec fn is_digit(c: char) -> bool {
    '0' <= c && c <= '9'
}

pub open spec fn is_letter(c: char) -> bool {
    ('a' <= c && c <= 'z') || ('A' <= c && c <= 'Z')
}

pub open spec fn is_alnum(c: char) -> bool {
    is_letter(c) || is_digit(c)
}

/// Whether `s` holds the character `c` at position `i`.
pub open spec fn char_is(s: Seq<char>, i: int, c: char) -> bool {
    0 <= i < s.len() && s[i] == c
}

pub open spec fn space_run(s: Seq<char>, i: int) -> nat
    decreases s.len() - i,
{
    if 0 <= i < s.len() && is_space(s[i]) {
        1 + space_run(s, i + 1)
    } else {
        0
    }
}

pub open spec fn digit_run(s: Seq<char>, i: int) -> nat
    decreases s.len() - i,
{
    if 0 <= i < s.len() && is_digit(s[i]) {
        1 + digit_run(s, i + 1)
    } else {
        0
    }
}

pub open spec fn alnum_run(s: Seq<char>, i: int) -> nat
    decreases s.len() - i,
{
    if 0 <= i < s.len() && is_alnum(s[i]) {
        1 + alnum_run(s, i + 1)
    } else {
        0
    }
}

/// The number of characters from position `i` to the end.
pub open spec fn remaining(s: Seq<char>, i: int) -> nat {
    if i < s.len() {
        (s.len() - i) as nat
    } else {
        0
    }
}

/// The first position at or after `i` that is not whitespace.
pub open spec fn skip(s: Seq<char>, i: int) -> int {
    i + space_run(s, i)
}

pub open spec fn digit_value(c: char) -> int {
    c as int - '0' as int
}

/// The value of a run of decimal digits.
pub open spec fn digits_value(d: Seq<char>) -> nat
    decreases d.len(),
{
    if d.len() == 0 {
        0
    } else {
        (digits_value(d.drop_last()) * 10 + digit_value(d.last())) as nat
    }
}

pub open spec fn trim_leading_zeros(d: Seq<char>) -> Seq<char>
    decreases d.len(),
{
    if d.len() > 0 && d[0] == '0' {
        trim_leading_zeros(d.drop_first())
    } else {
        d
    }
}

pub open spec fn trim_trailing_zeros(d: Seq<char>) -> Seq<char>
    decreases d.len(),
{
    if d.len() > 0 && d.last() == '0' {
        trim_trailing_zeros(d.drop_last())
    } else {
        d
    }
}

pub open spec fn fits_i64(v: int) -> bool {
    i64::MIN <= v <= i64::MAX
}

/// A numeric literal starting with the digit at `p`: digits, and optionally
/// a point followed by at least one digit.
pub open spec fn number(s: Seq<char>, p: int) -> Parsed<NumberModel> {
    let j = p + 1 + digit_run(s, p + 1);
    if char_is(s, j, '.') {
        let n = digit_run(s, j + 1);
        if n == 0 {
            Err((j + 1, Expected::Digit))
        } else {
            Ok((
                NumberModel::Decimal {
                    whole: trim_leading_zeros(s.subrange(p, j)),
                    fraction: trim_trailing_zeros(s.subrange(j + 1, j + 1 + n)),
                },
                (j + 1 + n - p) as nat,
            ))
        }
    } else {
        let v = digits_value(s.subrange(p, j)) as int;
        if fits_i64(v) {
            Ok((NumberModel::Integer(v), (j - p) as nat))
        } else {
            Err((p, Expected::SmallerNumber))
        }
    }
}

/// A unit term starting with the letter at `p`: a symbol, optionally
/// followed by `_` and an integer exponent with an optional sign.
pub open spec fn unit_term(s: Seq<char>, p: int) -> Parsed<UnitModel> {
    let q = p + 1 + alnum_run(s, p + 1);
    let symbol = s.subrange(p, q);
    if char_is(s, q, '_') {
        let negative = char_is(s, q + 1, '-');
        let d = if negative || char_is(s, q + 1, '+') { q + 2 } else { q + 1 };
        let n = digit_run(s, d);
        let m = digits_value(s.subrange(d, d + n));
        let e = if negative { -m } else { m as int };
        if n == 0 {
            Err((d, Expected::Digit))
        } else if !fits_i64(e) {
            Err((d, Expected::SmallerNumber))
        } else {
            Ok((UnitModel { symbol, exponent: e }, (d + n - p) as nat))
        }
    } else {
        Ok((UnitModel { symbol, exponent: 1 }, (q - p) as nat))
    }
}

/// The unit terms that follow a number from position `i` on, after those
/// already read (`acc`).
pub open spec fn units(s: Seq<char>, i: int, acc: Seq<UnitModel>) -> Parsed<Seq<UnitModel>>
    decreases remaining(s, i),

{
    let p = skip(s, i);
    if 0 <= p < s.len() && is_letter(s[p]) {
        match unit_term(s, p) {
            Err(f) => Err(f),
            Ok((u, n)) => match units(s, p + n, acc.push(u)) {
                Err(f) => Err(f),
                Ok((us, m)) => Ok((us, (p + n + m - i) as nat)),
            },
        }
    } else {
        Ok((acc, 0))
    }
}

/// A number with its unit terms, starting with the digit at `p`.
pub open spec fn constant(s: Seq<char>, p: int) -> Parsed<ExprModel> {
    match number(s, p) {
        Err(f) => Err(f),
        Ok((v, n)) => match units(s, p + n, Seq::empty()) {
            Err(f) => Err(f),
            Ok((us, m)) => Ok((
                ExprModel::Constant { value: v, units: if us.len() == 0 { None } else { Some(us) } },
                n + m,
            )),
        },
    }
}

/// An additive operator at `p`, with its width.
pub open spec fn add_op(s: Seq<char>, p: int) -> Option<(OpType, nat)> {
    if char_is(s, p, '+') {
        Some((OpType::Add, 1))
    } else if char_is(s, p, '-') && !char_is(s, p + 1, '>') {
        Some((OpType::Subtract, 1))
    } else {
        None
    }
}

/// A multiplicative operator at `p`, with its width.
pub open spec fn mul_op(s: Seq<char>, p: int) -> Option<(OpType, nat)> {
    if char_is(s, p, '*') {
        Some((OpType::Multiply, 1))
    } else if char_is(s, p, '/') && char_is(s, p + 1, '/') {
        Some((OpType::Floor, 2))
    } else if char_is(s, p, '/') {
        Some((OpType::Divide, 1))
    } else if char_is(s, p, '%') {
        Some((OpType::Modulo, 1))
    } else {
        None
    }
}

pub open spec fn operation(op_type: OpType, lhs: ExprModel, rhs: ExprModel) -> ExprModel {
    ExprModel::Operation { op_type, lhs: Box::new(lhs), rhs: Box::new(rhs) }
}

/// An expression: a sum, followed by any number of conversions `-> unit`.
pub open spec fn expr(s: Seq<char>, i: int) -> Parsed<ExprModel>
    decreases remaining(s, i), 4nat,
{
    match additive(s, i) {
        Err(f) => Err(f),
        Ok((e, n)) => match conversions(s, i + n, e) {
            Err(f) => Err(f),
            Ok((r, m)) => Ok((r, n + m)),
        },
    }
}

/// The conversions that follow the expression `value` from position `i` on.
pub open spec fn conversions(s: Seq<char>, i: int, value: ExprModel) -> Parsed<ExprModel>
    decreases remaining(s, i), 0nat,
{
    let p = skip(s, i);
    if char_is(s, p, '-') && char_is(s, p + 1, '>') {
        let q = skip(s, p + 2);
        if 0 <= q < s.len() && is_letter(s[q]) {
            match unit_term(s, q) {
                Err(f) => Err(f),
                Ok((u, n)) => match conversions(
                    s,
                    q + n,
                    ExprModel::Conversion { target_unit: u, value: Box::new(value) },
                ) {
                    Err(f) => Err(f),
                    Ok((r, m)) => Ok((r, (q + n + m - i) as nat)),
                },
            }
        } else {
            Err((q, Expected::UnitSymbol))
        }
    } else {
        Ok((value, 0))
    }
}

/// A sum: products joined by `+` or `-`, grouped to the left.
pub open spec fn additive(s: Seq<char>, i: int) -> Parsed<ExprModel>
    decreases remaining(s, i), 3nat,
{
    match multiplicative(s, i) {
        Err(f) => Err(f),
        Ok((e, n)) => match additive_rest(s, i + n, e) {
            Err(f) => Err(f),
            Ok((r, m)) => Ok((r, n + m)),
        },
    }
}

/// The terms that follow the sum `lhs` from position `i` on.
pub open spec fn additive_rest(s: Seq<char>, i: int, lhs: ExprModel) -> Parsed<ExprModel>
    decreases remaining(s, i), 0nat,
{
    let p = skip(s, i);
    match add_op(s, p) {
        None => Ok((lhs, 0)),
        Some((op, w)) => match multiplicative(s, p + w) {
            Err(f) => Err(f),
            Ok((rhs, n)) => match additive_rest(s, p + w + n, operation(op, lhs, rhs)) {
                Err(f) => Err(f),
                Ok((r, m)) => Ok((r, (p + w + n + m - i) as nat)),
            },
        },
    }
}

/// A product: powers joined by `*`, `/`, `//` or `%`, grouped to the left.
pub open spec fn multiplicative(s: Seq<char>, i: int) -> Parsed<ExprModel>
    decreases remaining(s, i), 2nat,
{
    match power(s, i) {
        Err(f) => Err(f),
        Ok((e, n)) => match multiplicative_rest(s, i + n, e) {
            Err(f) => Err(f),
            Ok((r, m)) => Ok((r, n + m)),
        },
    }
}

/// The factors that follow the product `lhs` from position `i` on.
pub open spec fn multiplicative_rest(s: Seq<char>, i: int, lhs: ExprModel) -> Parsed<ExprModel>
    decreases remaining(s, i), 0nat,
{
    let p = skip(s, i);
    match mul_op(s, p) {
        None => Ok((lhs, 0)),
        Some((op, w)) => match power(s, p + w) {
            Err(f) => Err(f),
            Ok((rhs, n)) => match multiplicative_rest(s, p + w + n, operation(op, lhs, rhs)) {
                Err(f) => Err(f),
                Ok((r, m)) => Ok((r, (p + w + n + m - i) as nat)),
            },
        },
    }
}

/// A power: an operand, optionally raised by `^` to a power (grouped to the
/// right).
pub open spec fn power(s: Seq<char>, i: int) -> Parsed<ExprModel>
    decreases remaining(s, i), 1nat,
{
    match operand(s, i) {
        Err(f) => Err(f),
        Ok((b, n)) => {
            let p = skip(s, i + n);
            if char_is(s, p, '^') {
                match power(s, p + 1) {
                    Err(f) => Err(f),
                    Ok((e, m)) => Ok((operation(OpType::Power, b, e), (p + 1 + m - i) as nat)),
                }
            } else {
                Ok((b, n))
            }
        },
    }
}

/// An operand: a parenthesised expression, a number with its units, a
/// function call or a variable.
pub open spec fn operand(s: Seq<char>, i: int) -> Parsed<ExprModel>
    decreases remaining(s, i), 0nat,
{
    let p = skip(s, i);
    if !(0 <= p < s.len()) {
        Err((p, Expected::Operand))
    } else if s[p] == '(' {
        match expr(s, p + 1) {
            Err(f) => Err(f),
            Ok((e, n)) => {
                let q = skip(s, p + 1 + n);
                if char_is(s, q, ')') {
                    Ok((e, (q + 1 - i) as nat))
                } else {
                    Err((q, Expected::CloseParen))
                }
            },
        }
    } else if is_digit(s[p]) {
        match constant(s, p) {
            Err(f) => Err(f),
            Ok((e, n)) => Ok((e, (p + n - i) as nat)),
        }
    } else if is_letter(s[p]) {
        let q = p + 1 + alnum_run(s, p + 1);
        let name = s.subrange(p, q);
        let r = skip(s, q);
        if char_is(s, r, '(') {
            match call_arguments(s, r + 1, name) {
                Err(f) => Err(f),
                Ok((e, n)) => Ok((e, (r + 1 + n - i) as nat)),
            }
        } else {
            Ok((ExprModel::Variable(name), (q - i) as nat))
        }
    } else {
        Err((p, Expected::Operand))
    }
}

/// The arguments of a call of `name` after its `(`, through the closing `)`.
pub open spec fn call_arguments(s: Seq<char>, i: int, name: Seq<char>) -> Parsed<ExprModel>
    decreases remaining(s, i), 6nat,
{
    let p = skip(s, i);
    if char_is(s, p, ')') {
        Ok((ExprModel::Function { name, arguments: Seq::empty() }, (p + 1 - i) as nat))
    } else {
        match argument_list(s, p, name, Seq::empty()) {
            Err(f) => Err(f),
            Ok((e, n)) => Ok((e, (p + n - i) as nat)),
        }
    }
}

/// The arguments from position `i` on, after those already read (`acc`).
pub open spec fn argument_list(
    s: Seq<char>,
    i: int,
    name: Seq<char>,
    acc: Seq<ExprModel>,
) -> Parsed<ExprModel>
    decreases remaining(s, i), 5nat,
{
    match expr(s, i) {
        Err(f) => Err(f),
        Ok((e, n)) => {
            let q = skip(s, i + n);
            if char_is(s, q, ',') {
                match argument_list(s, q + 1, name, acc.push(e)) {
                    Err(f) => Err(f),
                    Ok((r, m)) => Ok((r, (q + 1 + m - i) as nat)),
                }
            } else if char_is(s, q, ')') {
                Ok((ExprModel::Function { name, arguments: acc.push(e) }, (q + 1 - i) as nat))
            } else {
                Err((q, Expected::CommaOrCloseParen))
            }
        },
    }
}

/// What follows a statement's expression, ending at position `j`: only
/// whitespace may remain.
pub open spec fn finish(s: Seq<char>, j: int, st: StatementModel) -> Result<StatementModel, Failure> {
    let p = skip(s, j);
    if p == s.len() {
        Ok(st)
    } else {
        Err((p, Expected::EndOfInput))
    }
}

/// A whole text: `name = expression`, or an expression.
pub open spec fn statement(s: Seq<char>) -> Result<StatementModel, Failure> {
    let p = skip(s, 0);
    let q = p + 1 + alnum_run(s, p + 1);
    let r = skip(s, q);
    if 0 <= p < s.len() && is_letter(s[p]) && char_is(s, r, '=') {
        match expr(s, r + 1) {
            Err(f) => Err(f),
            Ok((e, n)) => finish(
                s,
                r + 1 + n,
                StatementModel::Assignment { variable_name: s.subrange(p, q), value: e },
            ),
        }
    } else {
        match expr(s, 0) {
            Err(f) => Err(f),
            Ok((e, n)) => finish(s, n as int, StatementModel::Expression(e)),
        }
    }
}

} // verus!
