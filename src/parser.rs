//! The parser: a recursive descent over the characters of the text, proved
//! to compute exactly what the grammar states.
use vstd::prelude::*;
use vstd::std_specs::iter::IteratorSpec;
use crate::ast::{
    args_model, Decimal, Expression, Number, OpType, Statement, StatementModel, Unit, UnitModel,
};
use crate::grammar::{
    add_op, additive, additive_rest, alnum_run, argument_list, call_arguments, char_is,
    constant, conversions, digit_run, digits_value, expr, finish, is_alnum, is_digit,
    is_letter, is_space, mul_op, multiplicative, multiplicative_rest, number, operand,
    operation, power, remaining, skip, space_run, statement, trim_leading_zeros,
    trim_trailing_zeros, unit_term, units, Expected, Failure, Parsed,
};

verus! {

/// Why a text was refused: the position (in characters) of the offending
/// character, or the length of the text where it ended too early, and what
/// was expected there.
#[derive(Clone, Copy, Debug, PartialEq, Eq, Structural)]
pub struct ParseError {
    pub position: usize,
    pub expected: Expected,
}

impl View for ParseError {
    type V = Failure;

    open spec fn view(&self) -> Failure {
        (self.position as int, self.expected)
    }
}

/// `r`, an outcome of parsing from `i`, is the one that `m` states.
pub open spec fn agrees<T: View>(r: Result<(T, usize), ParseError>, i: int, m: Parsed<T::V>) -> bool {
    match r {
        Ok((v, end)) => m is Ok && v@ == m->Ok_0.0 && end == i + m->Ok_0.1,
        Err(e) => m is Err && e@ == m->Err_0,
    }
}

/// The end position of a successful outcome lies within the text.
pub open spec fn ends_within<T>(r: Result<(T, usize), ParseError>, len: int) -> bool {
    r is Ok ==> r->Ok_0.1 <= len
}

/// The position of a failure lies within the text (or at its end).
pub open spec fn fails_within<T>(r: Result<T, ParseError>, len: int) -> bool {
    r is Err ==> r->Err_0.position <= len
}

/// `r` is the outcome that the grammar gives the text `s`.
pub open spec fn parse_outcome(s: Seq<char>, r: Result<Statement, ParseError>) -> bool {
    match r {
        Ok(st) => statement(s) == Ok::<StatementModel, Failure>(st@),
        Err(e) => statement(s) == Err::<StatementModel, Failure>(e@),
    }
}

pub open spec fn units_view(v: Seq<Unit>) -> Seq<UnitModel> {
    v.map_values(|u: Unit| u@)
}

fn is_space_char(c: char) -> (r: bool)
    ensures
        r == is_space(c),
{
    c == ' ' || c == '\t' || c == '\n' || c == '\r'
}

fn is_digit_char(c: char) -> (r: bool)
    ensures
        r == is_digit(c),
{
    '0' <= c && c <= '9'
}

fn is_letter_char(c: char) -> (r: bool)
    ensures
        r == is_letter(c),
{
    ('a' <= c && c <= 'z') || ('A' <= c && c <= 'Z')
}

fn is_alnum_char(c: char) -> (r: bool)
    ensures
        r == is_alnum(c),
{
    is_letter_char(c) || is_digit_char(c)
}

fn char_is_at(cs: &Vec<char>, i: usize, c: char) -> (r: bool)
    ensures
        r == char_is(cs@, i as int, c),
{
    i < cs.len() && cs[i] == c
}

/// The characters of `src`, one by one.
fn chars_of(src: &str) -> (cs: Vec<char>)
    ensures
        cs@ == src@,
{
    broadcast use vstd::string::group_string_axioms, vstd::string::next_postcondition;

    let mut it = src.chars();
    let mut cs: Vec<char> = Vec::new();
    loop
        invariant
            cs@ + it.remaining() == src@,
            it.decrease() is Some,
        ensures
            cs@ == src@,
        decreases it.decrease()->0,
    {
        match it.next() {
            Some(c) => {
                cs.push(c);
            },
            None => {
                assert(cs@ =~= src@);
                break;
            },
        }
    }
    cs
}

/// The text of `src` from `a` up to `b`.
fn slice_text(src: &str, a: usize, b: usize) -> (r: String)
    requires
        a <= b <= src@.len(),
    ensures
        r@ == src@.subrange(a as int, b as int),
{
    src.substring_char(a, b).to_owned()
}

fn skip_spaces(cs: &Vec<char>, i: usize) -> (p: usize)
    requires
        i <= cs.len(),
    ensures
        p == skip(cs@, i as int),
        i <= p <= cs.len(),
{
    let mut k = i;
    while k < cs.len() && is_space_char(cs[k])
        invariant
            i <= k <= cs.len(),
            k + space_run(cs@, k as int) == i + space_run(cs@, i as int),
        decreases cs.len() - k,
    {
        k += 1;
    }
    k
}

fn digit_end(cs: &Vec<char>, i: usize) -> (j: usize)
    requires
        i <= cs.len(),
    ensures
        j == i + digit_run(cs@, i as int),
        i <= j <= cs.len(),
        forall|k: int| i <= k < j ==> is_digit(#[trigger] cs@[k]),
{
    let mut k = i;
    while k < cs.len() && is_digit_char(cs[k])
        invariant
            i <= k <= cs.len(),
            k + digit_run(cs@, k as int) == i + digit_run(cs@, i as int),
            forall|m: int| i <= m < k ==> is_digit(#[trigger] cs@[m]),
        decreases cs.len() - k,
    {
        k += 1;
    }
    k
}

fn alnum_end(cs: &Vec<char>, i: usize) -> (j: usize)
    requires
        i <= cs.len(),
    ensures
        j == i + alnum_run(cs@, i as int),
        i <= j <= cs.len(),
{
    let mut k = i;
    while k < cs.len() && is_alnum_char(cs[k])
        invariant
            i <= k <= cs.len(),
            k + alnum_run(cs@, k as int) == i + alnum_run(cs@, i as int),
        decreases cs.len() - k,
    {
        k += 1;
    }
    k
}

/// A run of digits is worth at least any of its prefixes.
proof fn lemma_digits_prefix(d: Seq<char>, k: int)
    requires
        0 <= k <= d.len(),
        forall|m: int| 0 <= m < d.len() ==> is_digit(#[trigger] d[m]),
    ensures
        digits_value(d.subrange(0, k)) <= digits_value(d),
    decreases d.len(),
{
    if k == d.len() {
        assert(d.subrange(0, k) =~= d);
    } else {
        let e = d.drop_last();
        assert(e.subrange(0, k) =~= d.subrange(0, k));
        lemma_digits_prefix(e, k);
    }
}

/// The value of the digits from `a` up to `b`, where it is at most `limit`.
fn read_natural(cs: &Vec<char>, a: usize, b: usize, limit: u64) -> (r: Option<u64>)
    requires
        a <= b <= cs.len(),
        forall|k: int| a <= k < b ==> is_digit(#[trigger] cs@[k]),
    ensures
        match r {
            Some(v) => v as int == digits_value(cs@.subrange(a as int, b as int)) && v <= limit,
            None => digits_value(cs@.subrange(a as int, b as int)) > limit,
        },
{
    let mut v: u64 = 0;
    let mut k = a;
    assert(cs@.subrange(a as int, a as int) =~= Seq::<char>::empty());
    while k < b
        invariant
            a <= k <= b <= cs.len(),
            forall|m: int| a <= m < b ==> is_digit(#[trigger] cs@[m]),
            v as int == digits_value(cs@.subrange(a as int, k as int)),
            v <= limit,
        decreases b - k,
    {
        let d = (cs[k] as u32 - '0' as u32) as u64;
        let next: u128 = v as u128 * 10 + d as u128;
        proof {
            assert(cs@.subrange(a as int, k + 1).drop_last() =~= cs@.subrange(a as int, k as int));
        }
        if next > limit as u128 {
            proof {
                let whole = cs@.subrange(a as int, b as int);
                assert(whole.subrange(0, k + 1 - a) =~= cs@.subrange(a as int, k + 1));
                lemma_digits_prefix(whole, k + 1 - a);
            }
            return None;
        }
        v = next as u64;
        k += 1;
    }
    Some(v)
}

/// The first position from `a` on that does not hold a leading zero of the
/// digits from `a` up to `b`.
fn skip_leading_zeros(cs: &Vec<char>, a: usize, b: usize) -> (w: usize)
    requires
        a <= b <= cs.len(),
    ensures
        a <= w <= b,
        cs@.subrange(w as int, b as int) == trim_leading_zeros(cs@.subrange(a as int, b as int)),
{
    let mut k = a;
    while k < b && cs[k] == '0'
        invariant
            a <= k <= b <= cs.len(),
            trim_leading_zeros(cs@.subrange(k as int, b as int)) == trim_leading_zeros(
                cs@.subrange(a as int, b as int),
            ),
        decreases b - k,
    {
        assert(cs@.subrange(k as int, b as int).drop_first() =~= cs@.subrange(k + 1, b as int));
        k += 1;
    }
    k
}

/// The end of the digits from `a` up to `b` without their trailing zeros.
fn drop_trailing_zeros(cs: &Vec<char>, a: usize, b: usize) -> (f: usize)
    requires
        a <= b <= cs.len(),
    ensures
        a <= f <= b,
        cs@.subrange(a as int, f as int) == trim_trailing_zeros(cs@.subrange(a as int, b as int)),
{
    let mut k = b;
    while k > a && cs[k - 1] == '0'
        invariant
            a <= k <= b <= cs.len(),
            trim_trailing_zeros(cs@.subrange(a as int, k as int)) == trim_trailing_zeros(
                cs@.subrange(a as int, b as int),
            ),
        decreases k - a,
    {
        assert(cs@.subrange(a as int, k as int).drop_last() =~= cs@.subrange(a as int, k - 1));
        k -= 1;
    }
    k
}

fn parse_number(src: &str, cs: &Vec<char>, p: usize) -> (r: Result<(Number, usize), ParseError>)
    requires
        cs@ == src@,
        p < cs.len(),
        is_digit(cs@[p as int]),
    ensures
        agrees(r, p as int, number(cs@, p as int)),
        ends_within(r, cs.len() as int),
        fails_within(r, cs.len() as int),
{
    let j = digit_end(cs, p + 1);
    if char_is_at(cs, j, '.') {
        let k = digit_end(cs, j + 1);
        if k == j + 1 {
            return Err(ParseError { position: j + 1, expected: Expected::Digit });
        }
        let w = skip_leading_zeros(cs, p, j);
        let f = drop_trailing_zeros(cs, j + 1, k);
        let whole = slice_text(src, w, j);
        let fraction = slice_text(src, j + 1, f);
        Ok((Number::Decimal(Decimal { whole, fraction }), k))
    } else {
        match read_natural(cs, p, j, 0x7fff_ffff_ffff_ffff) {
            Some(v) => Ok((Number::Integer(v as i64), j)),
            None => Err(ParseError { position: p, expected: Expected::SmallerNumber }),
        }
    }
}

fn parse_unit_term(src: &str, cs: &Vec<char>, p: usize) -> (r: Result<(Unit, usize), ParseError>)
    requires
        cs@ == src@,
        p < cs.len(),
        is_letter(cs@[p as int]),
    ensures
        agrees(r, p as int, unit_term(cs@, p as int)),
        ends_within(r, cs.len() as int),
        fails_within(r, cs.len() as int),
{
    let q = alnum_end(cs, p + 1);
    let symbol = slice_text(src, p, q);
    if char_is_at(cs, q, '_') {
        let negative = char_is_at(cs, q + 1, '-');
        let d = if negative || char_is_at(cs, q + 1, '+') {
            q + 2
        } else {
            q + 1
        };
        let e = digit_end(cs, d);
        if e == d {
            return Err(ParseError { position: d, expected: Expected::Digit });
        }
        let limit: u64 = if negative {
            0x8000_0000_0000_0000
        } else {
            0x7fff_ffff_ffff_ffff
        };
        match read_natural(cs, d, e, limit) {
            None => Err(ParseError { position: d, expected: Expected::SmallerNumber }),
            Some(m) => {
                let exponent: i64 = if !negative {
                    m as i64
                } else if m == limit {
                    i64::MIN
                } else {
                    -(m as i64)
                };
                Ok((Unit(symbol, exponent), e))
            },
        }
    } else {
        Ok((Unit(symbol, 1), q))
    }
}

/// The outcome of reading unit terms agrees with `m`.
pub open spec fn units_agree(
    r: Result<(Vec<Unit>, usize), ParseError>,
    i: int,
    m: Parsed<Seq<UnitModel>>,
) -> bool {
    match r {
        Ok((v, end)) => m is Ok && units_view(v@) == m->Ok_0.0 && end == i + m->Ok_0.1,
        Err(e) => m is Err && e@ == m->Err_0,
    }
}

fn parse_units(src: &str, cs: &Vec<char>, i: usize, acc: Vec<Unit>) -> (r: Result<
    (Vec<Unit>, usize),
    ParseError,
>)
    requires
        cs@ == src@,
        i <= cs.len(),
    ensures
        units_agree(r, i as int, units(cs@, i as int, units_view(acc@))),
        ends_within(r, cs.len() as int),
        fails_within(r, cs.len() as int),
    decreases remaining(cs@, i as int),
{
    let p = skip_spaces(cs, i);
    if p < cs.len() && is_letter_char(cs[p]) {
        match parse_unit_term(src, cs, p) {
            Err(e) => Err(e),
            Ok((u, q)) => {
                let mut acc = acc;
                let ghost before = acc@;
                acc.push(u);
                assert(units_view(acc@) =~= units_view(before).push(u@));
                parse_units(src, cs, q, acc)
            },
        }
    } else {
        Ok((acc, i))
    }
}

fn parse_constant(src: &str, cs: &Vec<char>, p: usize) -> (r: Result<(Expression, usize), ParseError>)
    requires
        cs@ == src@,
        p < cs.len(),
        is_digit(cs@[p as int]),
    ensures
        agrees(r, p as int, constant(cs@, p as int)),
        ends_within(r, cs.len() as int),
        fails_within(r, cs.len() as int),
{
    match parse_number(src, cs, p) {
        Err(e) => Err(e),
        Ok((value, j)) => {
            let empty: Vec<Unit> = Vec::new();
            assert(units_view(empty@) =~= Seq::<UnitModel>::empty());
            match parse_units(src, cs, j, empty) {
                Err(e) => Err(e),
                Ok((us, k)) => {
                    let units = if us.len() == 0 {
                        None
                    } else {
                        Some(us)
                    };
                    Ok((Expression::Constant { value, units }, k))
                },
            }
        },
    }
}

fn add_op_at(cs: &Vec<char>, p: usize) -> (r: Option<(OpType, usize)>)
    requires
        p <= cs.len(),
    ensures
        match r {
            Some((op, w)) => add_op(cs@, p as int) == Some((op, w as nat)),
            None => add_op(cs@, p as int) is None,
        },
{
    if char_is_at(cs, p, '+') {
        Some((OpType::Add, 1))
    } else if char_is_at(cs, p, '-') && !char_is_at(cs, p + 1, '>') {
        Some((OpType::Subtract, 1))
    } else {
        None
    }
}

fn mul_op_at(cs: &Vec<char>, p: usize) -> (r: Option<(OpType, usize)>)
    requires
        p <= cs.len(),
    ensures
        match r {
            Some((op, w)) => mul_op(cs@, p as int) == Some((op, w as nat)),
            None => mul_op(cs@, p as int) is None,
        },
{
    if char_is_at(cs, p, '*') {
        Some((OpType::Multiply, 1))
    } else if char_is_at(cs, p, '/') && char_is_at(cs, p + 1, '/') {
        Some((OpType::Floor, 2))
    } else if char_is_at(cs, p, '/') {
        Some((OpType::Divide, 1))
    } else if char_is_at(cs, p, '%') {
        Some((OpType::Modulo, 1))
    } else {
        None
    }
}

fn make_operation(op_type: OpType, lhs: Expression, rhs: Expression) -> (e: Expression)
    ensures
        e@ == operation(op_type, lhs@, rhs@),
{
    Expression::Operation { op_type, lhs: Box::new(lhs), rhs: Box::new(rhs) }
}

fn parse_expr(src: &str, cs: &Vec<char>, i: usize) -> (r: Result<(Expression, usize), ParseError>)
    requires
        cs@ == src@,
        i <= cs.len(),
    ensures
        agrees(r, i as int, expr(cs@, i as int)),
        ends_within(r, cs.len() as int),
        fails_within(r, cs.len() as int),
    decreases remaining(cs@, i as int), 4nat,
{
    match parse_additive(src, cs, i) {
        Err(e) => Err(e),
        Ok((e, j)) => parse_conversions(src, cs, j, e),
    }
}

fn parse_conversions(src: &str, cs: &Vec<char>, i: usize, value: Expression) -> (r: Result<
    (Expression, usize),
    ParseError,
>)
    requires
        cs@ == src@,
        i <= cs.len(),
    ensures
        agrees(r, i as int, conversions(cs@, i as int, value@)),
        ends_within(r, cs.len() as int),
        fails_within(r, cs.len() as int),
    decreases remaining(cs@, i as int), 0nat,
{
    let p = skip_spaces(cs, i);
    if char_is_at(cs, p, '-') && char_is_at(cs, p + 1, '>') {
        let q = skip_spaces(cs, p + 2);
        if q < cs.len() && is_letter_char(cs[q]) {
            match parse_unit_term(src, cs, q) {
                Err(e) => Err(e),
                Ok((target_unit, k)) => {
                    let converted = Expression::Conversion { target_unit, value: Box::new(value) };
                    parse_conversions(src, cs, k, converted)
                },
            }
        } else {
            Err(ParseError { position: q, expected: Expected::UnitSymbol })
        }
    } else {
        Ok((value, i))
    }
}

fn parse_additive(src: &str, cs: &Vec<char>, i: usize) -> (r: Result<(Expression, usize), ParseError>)
    requires
        cs@ == src@,
        i <= cs.len(),
    ensures
        agrees(r, i as int, additive(cs@, i as int)),
        ends_within(r, cs.len() as int),
        fails_within(r, cs.len() as int),
    decreases remaining(cs@, i as int), 3nat,
{
    match parse_multiplicative(src, cs, i) {
        Err(e) => Err(e),
        Ok((e, j)) => parse_additive_rest(src, cs, j, e),
    }
}

fn parse_additive_rest(src: &str, cs: &Vec<char>, i: usize, lhs: Expression) -> (r: Result<
    (Expression, usize),
    ParseError,
>)
    requires
        cs@ == src@,
        i <= cs.len(),
    ensures
        agrees(r, i as int, additive_rest(cs@, i as int, lhs@)),
        ends_within(r, cs.len() as int),
        fails_within(r, cs.len() as int),
    decreases remaining(cs@, i as int), 0nat,
{
    let p = skip_spaces(cs, i);
    match add_op_at(cs, p) {
        None => Ok((lhs, i)),
        Some((op, w)) => match parse_multiplicative(src, cs, p + w) {
            Err(e) => Err(e),
            Ok((rhs, j)) => parse_additive_rest(src, cs, j, make_operation(op, lhs, rhs)),
        },
    }
}

fn parse_multiplicative(src: &str, cs: &Vec<char>, i: usize) -> (r: Result<
    (Expression, usize),
    ParseError,
>)
    requires
        cs@ == src@,
        i <= cs.len(),
    ensures
        agrees(r, i as int, multiplicative(cs@, i as int)),
        ends_within(r, cs.len() as int),
        fails_within(r, cs.len() as int),
    decreases remaining(cs@, i as int), 2nat,
{
    match parse_power(src, cs, i) {
        Err(e) => Err(e),
        Ok((e, j)) => parse_multiplicative_rest(src, cs, j, e),
    }
}

fn parse_multiplicative_rest(src: &str, cs: &Vec<char>, i: usize, lhs: Expression) -> (r: Result<
    (Expression, usize),
    ParseError,
>)
    requires
        cs@ == src@,
        i <= cs.len(),
    ensures
        agrees(r, i as int, multiplicative_rest(cs@, i as int, lhs@)),
        ends_within(r, cs.len() as int),
        fails_within(r, cs.len() as int),
    decreases remaining(cs@, i as int), 0nat,
{
    let p = skip_spaces(cs, i);
    match mul_op_at(cs, p) {
        None => Ok((lhs, i)),
        Some((op, w)) => match parse_power(src, cs, p + w) {
            Err(e) => Err(e),
            Ok((rhs, j)) => parse_multiplicative_rest(src, cs, j, make_operation(op, lhs, rhs)),
        },
    }
}

fn parse_power(src: &str, cs: &Vec<char>, i: usize) -> (r: Result<(Expression, usize), ParseError>)
    requires
        cs@ == src@,
        i <= cs.len(),
    ensures
        agrees(r, i as int, power(cs@, i as int)),
        ends_within(r, cs.len() as int),
        fails_within(r, cs.len() as int),
    decreases remaining(cs@, i as int), 1nat,
{
    match parse_operand(src, cs, i) {
        Err(e) => Err(e),
        Ok((base, j)) => {
            let p = skip_spaces(cs, j);
            if char_is_at(cs, p, '^') {
                match parse_power(src, cs, p + 1) {
                    Err(e) => Err(e),
                    Ok((exponent, k)) => Ok((make_operation(OpType::Power, base, exponent), k)),
                }
            } else {
                Ok((base, j))
            }
        },
    }
}

fn parse_operand(src: &str, cs: &Vec<char>, i: usize) -> (r: Result<(Expression, usize), ParseError>)
    requires
        cs@ == src@,
        i <= cs.len(),
    ensures
        agrees(r, i as int, operand(cs@, i as int)),
        ends_within(r, cs.len() as int),
        fails_within(r, cs.len() as int),
    decreases remaining(cs@, i as int), 0nat,
{
    let p = skip_spaces(cs, i);
    if p >= cs.len() {
        Err(ParseError { position: p, expected: Expected::Operand })
    } else if cs[p] == '(' {
        match parse_expr(src, cs, p + 1) {
            Err(e) => Err(e),
            Ok((e, j)) => {
                let q = skip_spaces(cs, j);
                if char_is_at(cs, q, ')') {
                    Ok((e, q + 1))
                } else {
                    Err(ParseError { position: q, expected: Expected::CloseParen })
                }
            },
        }
    } else if is_digit_char(cs[p]) {
        parse_constant(src, cs, p)
    } else if is_letter_char(cs[p]) {
        let q = alnum_end(cs, p + 1);
        let name = slice_text(src, p, q);
        let r = skip_spaces(cs, q);
        if char_is_at(cs, r, '(') {
            parse_call_arguments(src, cs, r + 1, name)
        } else {
            Ok((Expression::Variable(name), q))
        }
    } else {
        Err(ParseError { position: p, expected: Expected::Operand })
    }
}

/// The first `n` arguments agree whenever the vectors agree on them.
proof fn lemma_args_model_prefix(a: Vec<Box<Expression>>, b: Vec<Box<Expression>>, n: nat)
    requires
        n <= a.len(),
        n <= b.len(),
        forall|k: int| 0 <= k < n ==> a@[k] == b@[k],
    ensures
        args_model(a, n) == args_model(b, n),
    decreases n,
{
    if n > 0 {
        lemma_args_model_prefix(a, b, (n - 1) as nat);
    }
}

fn push_argument(args: &mut Vec<Box<Expression>>, e: Expression)
    ensures
        args_model(*final(args), final(args).len() as nat) == args_model(
            *old(args),
            old(args).len() as nat,
        ).push(e@),
{
    let ghost before = *args;
    args.push(Box::new(e));
    proof {
        lemma_args_model_prefix(before, *args, before.len() as nat);
    }
}

fn parse_call_arguments(src: &str, cs: &Vec<char>, i: usize, name: String) -> (r: Result<
    (Expression, usize),
    ParseError,
>)
    requires
        cs@ == src@,
        i <= cs.len(),
    ensures
        agrees(r, i as int, call_arguments(cs@, i as int, name@)),
        ends_within(r, cs.len() as int),
        fails_within(r, cs.len() as int),
    decreases remaining(cs@, i as int), 6nat,
{
    let p = skip_spaces(cs, i);
    if char_is_at(cs, p, ')') {
        let arguments: Vec<Box<Expression>> = Vec::new();
        assert(args_model(arguments, 0) =~= Seq::empty());
        Ok((Expression::Function { name, arguments }, p + 1))
    } else {
        let arguments: Vec<Box<Expression>> = Vec::new();
        assert(args_model(arguments, 0) =~= Seq::empty());
        parse_argument_list(src, cs, p, name, arguments)
    }
}

fn parse_argument_list(
    src: &str,
    cs: &Vec<char>,
    i: usize,
    name: String,
    acc: Vec<Box<Expression>>,
) -> (r: Result<(Expression, usize), ParseError>)
    requires
        cs@ == src@,
        i <= cs.len(),
    ensures
        agrees(r, i as int, argument_list(cs@, i as int, name@, args_model(acc, acc.len() as nat))),
        ends_within(r, cs.len() as int),
        fails_within(r, cs.len() as int),
    decreases remaining(cs@, i as int), 5nat,
{
    match parse_expr(src, cs, i) {
        Err(e) => Err(e),
        Ok((e, j)) => {
            let q = skip_spaces(cs, j);
            let mut arguments = acc;
            if char_is_at(cs, q, ',') {
                push_argument(&mut arguments, e);
                parse_argument_list(src, cs, q + 1, name, arguments)
            } else if char_is_at(cs, q, ')') {
                push_argument(&mut arguments, e);
                Ok((Expression::Function { name, arguments }, q + 1))
            } else {
                Err(ParseError { position: q, expected: Expected::CommaOrCloseParen })
            }
        },
    }
}

/// The statement `st`, whose expression ends at `j`, where only whitespace
/// follows.
fn finish_statement(cs: &Vec<char>, j: usize, st: Statement) -> (r: Result<Statement, ParseError>)
    requires
        j <= cs.len(),
    ensures
        match r {
            Ok(x) => finish(cs@, j as int, st@) == Ok::<StatementModel, Failure>(x@),
            Err(e) => finish(cs@, j as int, st@) == Err::<StatementModel, Failure>(e@),
        },
        fails_within(r, cs.len() as int),
{
    let p = skip_spaces(cs, j);
    if p == cs.len() {
        Ok(st)
    } else {
        Err(ParseError { position: p, expected: Expected::EndOfInput })
    }
}

/// Parses a whole text: `name = expression` or an expression. The outcome
/// is exactly the one that the grammar gives the text; a failure names a
/// position within it.
pub fn parse(src: &str) -> (r: Result<Statement, ParseError>)
    ensures
        parse_outcome(src@, r),
        fails_within(r, src@.len() as int),
{
    let cs = chars_of(src);
    let p = skip_spaces(&cs, 0);
    if p < cs.len() && is_letter_char(cs[p]) {
        let q = alnum_end(&cs, p + 1);
        let r = skip_spaces(&cs, q);
        if char_is_at(&cs, r, '=') {
            let variable_name = slice_text(src, p, q);
            return match parse_expr(src, &cs, r + 1) {
                Err(e) => Err(e),
                Ok((value, j)) => {
                    let st = Statement::Assignment { variable_name, value: Box::new(value) };
                    finish_statement(&cs, j, st)
                },
            };
        }
    }
    match parse_expr(src, &cs, 0) {
        Err(e) => Err(e),
        Ok((value, j)) => finish_statement(&cs, j, Statement::Expression(Box::new(value))),
    }
}

/// A parser of whole statements.
pub struct StatementParser;

impl StatementParser {
    pub fn new() -> (p: StatementParser) {
        StatementParser
    }

    /// Parses a whole text, exactly as `parse` does.
    pub fn parse(&self, input: &str) -> (r: Result<Statement, ParseError>)
        ensures
            parse_outcome(input@, r),
            fails_within(r, input@.len() as int),
    {
        parse(input)
    }
}

} // verus!
