//! The syntax tree produced by the parser, and its mathematical model.
use vstd::prelude::*;

verus! {

broadcast use vstd::std_specs::vec::group_vec_axioms;

/// A binary operator.
#[derive(Clone, Copy, Debug, PartialEq, Eq, Structural)]
pub enum OpType {
    Multiply,
    Divide,
    Subtract,
    Add,
    Floor,
    Modulo,
    Power,
}

/// A decimal literal, kept exactly: the digits before the point without
/// leading zeros, and the digits after it without trailing zeros. Two
/// literals of the same value are therefore equal (`32.50` and `032.5`).
#[derive(Debug, PartialEq)]
pub struct Decimal {
    pub whole: String,
    pub fraction: String,
}

/// A numeric literal: `Decimal` when written with a point, else `Integer`.
#[derive(Debug, PartialEq)]
pub enum Number {
    Decimal(Decimal),
    Integer(i64),
}

/// A unit term: its symbol and its exponent.
#[derive(Debug, PartialEq)]
pub struct Unit(pub String, pub i64);

/// An expression; each node owns its children.
#[derive(Debug, PartialEq)]
pub enum Expression {
    Constant { value: Number, units: Option<Vec<Unit>> },
    Variable(String),
    Function { name: String, arguments: Vec<Box<Expression>> },
    Operation { op_type: OpType, lhs: Box<Expression>, rhs: Box<Expression> },
    Conversion { target_unit: Unit, value: Box<Expression> },
}

/// What a whole text parses to.
#[derive(Debug, PartialEq)]
pub enum Statement {
    Expression(Box<Expression>),
    Assignment { variable_name: String, value: Box<Expression> },
}

/// Model of a `Number`.
pub enum NumberModel {
    Decimal { whole: Seq<char>, fraction: Seq<char> },
    Integer(int),
}

/// Model of a `Unit`.
pub struct UnitModel {
    pub symbol: Seq<char>,
    pub exponent: int,
}

/// Model of an `Expression`.
pub enum ExprModel {
    Constant { value: NumberModel, units: Option<Seq<UnitModel>> },
    Variable(Seq<char>),
    Function { name: Seq<char>, arguments: Seq<ExprModel> },
    Operation { op_type: OpType, lhs: Box<ExprModel>, rhs: Box<ExprModel> },
    Conversion { target_unit: UnitModel, value: Box<ExprModel> },
}

/// Model of a `Statement`.
pub enum StatementModel {
    Expression(ExprModel),
    Assignment { variable_name: Seq<char>, value: ExprModel },
}

impl View for Number {
    type V = NumberModel;

    open spec fn view(&self) -> NumberModel {
        match self {
            Number::Decimal(d) => NumberModel::Decimal { whole: d.whole@, fraction: d.fraction@ },
            Number::Integer(n) => NumberModel::Integer(*n as int),
        }
    }
}

impl View for Unit {
    type V = UnitModel;

    open spec fn view(&self) -> UnitModel {
        UnitModel { symbol: self.0@, exponent: self.1 as int }
    }
}

/// Model of the units attached to a number.
pub open spec fn units_model(units: Option<Vec<Unit>>) -> Option<Seq<UnitModel>> {
    match units {
        Some(v) => Some(v@.map_values(|u: Unit| u@)),
        None => None,
    }
}

/// Model of an expression tree.
pub open spec fn expr_model(e: Expression) -> ExprModel
    decreases e, 0nat,
{
    match e {
        Expression::Constant { value, units } => ExprModel::Constant {
            value: value@,
            units: units_model(units),
        },
        Expression::Variable(name) => ExprModel::Variable(name@),
        Expression::Function { name, arguments } => ExprModel::Function {
            name: name@,
            arguments: args_model(arguments, arguments.len() as nat),
        },
        Expression::Operation { op_type, lhs, rhs } => ExprModel::Operation {
            op_type,
            lhs: Box::new(expr_model(*lhs)),
            rhs: Box::new(expr_model(*rhs)),
        },
        Expression::Conversion { target_unit, value } => ExprModel::Conversion {
            target_unit: target_unit@,
            value: Box::new(expr_model(*value)),
        },
    }
}

/// Model of the first `n` arguments of a function call.
pub open spec fn args_model(args: Vec<Box<Expression>>, n: nat) -> Seq<ExprModel>
    decreases args, n,
{
    if n == 0 || n > args.len() {
        Seq::empty()
    } else {
        args_model(args, (n - 1) as nat).push(expr_model(*args[n - 1]))
    }
}

impl View for Expression {
    type V = ExprModel;

    open spec fn view(&self) -> ExprModel {
        expr_model(*self)
    }
}

impl View for Statement {
    type V = StatementModel;

    open spec fn view(&self) -> StatementModel {
        match self {
            Statement::Expression(e) => StatementModel::Expression((**e)@),
            Statement::Assignment { variable_name, value } => StatementModel::Assignment {
                variable_name: variable_name@,
                value: (**value)@,
            },
        }
    }
}

/// No number in the tree carries an empty list of units: a number written
/// without units has none at all.
pub open spec fn units_well_formed(e: ExprModel) -> bool
    decreases e,
{
    match e {
        ExprModel::Constant { units, .. } => units != Some(Seq::<UnitModel>::empty()),
        ExprModel::Variable(_) => true,
        ExprModel::Function { arguments, .. } => forall|k: int|
            0 <= k < arguments.len() ==> units_well_formed(#[trigger] arguments[k]),
        ExprModel::Operation { lhs, rhs, .. } => units_well_formed(*lhs) && units_well_formed(
            *rhs,
        ),
        ExprModel::Conversion { value, .. } => units_well_formed(*value),
    }
}

pub open spec fn statement_units_well_formed(st: StatementModel) -> bool {
    match st {
        StatementModel::Expression(e) => units_well_formed(e),
        StatementModel::Assignment { value, .. } => units_well_formed(value),
    }
}

} // verus!
