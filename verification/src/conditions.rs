//! The `check_condition` leaf: evaluates two expressions and compares
//! the results.

use vstd::prelude::*;
use vstd::string::*;
use crate::value::{Value, ValueV, dict_lookup};
use crate::expressions::{
    PostfixedExpressionMember, MemberV, EvalErrV, spec_eval, spec_compile,
    generate_postfixed_expression, compile_err_msg, value_desc, EvalErr,
    evaluate_expression_int,
};
use crate::standard::{Context, StoreV};
use crate::tree::{VisitResult, LeafFactory, LeafS};
use crate::chars::{str_eq, push_char};

verus! {

/// A comparison operator of the `check_condition` leaf.
#[derive(Debug, Clone, Copy, PartialEq, Eq, Structural)]
pub enum CondOp {
    SuperiorStrict,
    InferiorStrict,
    Equal,
    Superior,
    Inferior,
}

/// Whether the comparison holds.
pub open spec fn spec_check_condition(exp1: i64, exp2: i64, operator: CondOp) -> bool {
    match operator {
        CondOp::SuperiorStrict => exp1 > exp2,
        CondOp::InferiorStrict => exp1 < exp2,
        CondOp::Equal => exp1 == exp2,
        CondOp::Superior => exp1 >= exp2,
        CondOp::Inferior => exp1 <= exp2,
    }
}

/// Compares two evaluated expression results.
pub fn check_condition(exp1: i64, exp2: i64, operator: CondOp) -> (r: bool)
    ensures
        r == spec_check_condition(exp1, exp2, operator),
{
    match operator {
        CondOp::SuperiorStrict => exp1 > exp2,
        CondOp::InferiorStrict => exp1 < exp2,
        CondOp::Equal => exp1 == exp2,
        CondOp::Superior => exp1 >= exp2,
        CondOp::Inferior => exp1 <= exp2,
    }
}

/// What one tick of a `check_condition` leaf returns: `Success` when
/// the comparison holds, `Failure` when it does not, and the first
/// expression error otherwise.
pub open spec fn condition_result(
    e1: Seq<MemberV>,
    e2: Seq<MemberV>,
    op: CondOp,
    vars: Map<Seq<char>, StoreV>,
) -> Result<VisitResult, EvalErrV> {
    match spec_eval(e1, vars) {
        Err(e) => Err(e),
        Ok(a) => match spec_eval(e2, vars) {
            Err(e) => Err(e),
            Ok(b) => Ok(
                if spec_check_condition(a, b, op) {
                    VisitResult::Success
                } else {
                    VisitResult::Failure
                },
            ),
        },
    }
}

/// The behaviour of a `check_condition` leaf.
#[derive(Debug)]
pub struct ConditionChecker {
    pub exp1: Vec<PostfixedExpressionMember>,
    pub exp2: Vec<PostfixedExpressionMember>,
    pub operator: CondOp,
}

impl ConditionChecker {
    /// Evaluates both expressions and compares the results; the context
    /// is read but never changed.
    pub fn visit(&self, context: &Context) -> (r: Result<VisitResult, EvalErr>)
        ensures
            ({
                match condition_result(
                    self.exp1.deep_view(),
                    self.exp2.deep_view(),
                    self.operator,
                    context@.vars,
                ) {
                    Ok(v) => r matches Ok(rv) && rv == v,
                    Err(e) => r matches Err(x) && x@ == e,
                }
            }),
    {
        let result_1 = match evaluate_expression_int(context, &self.exp1) {
            Ok(v) => v,
            Err(e) => {
                return Err(e);
            }
        };
        let result_2 = match evaluate_expression_int(context, &self.exp2) {
            Ok(v) => v,
            Err(e) => {
                return Err(e);
            }
        };
        if check_condition(result_1, result_2, self.operator) {
            Ok(VisitResult::Success)
        } else {
            Ok(VisitResult::Failure)
        }
    }
}

/// A description of an absent or present option value.
pub open spec fn opt_desc(o: Option<ValueV>) -> Seq<char> {
    match o {
        None => "nothing"@,
        Some(v) => value_desc(v),
    }
}

/// The comparison operator named by an operator value, if any.
pub open spec fn cond_op_of(v: ValueV) -> Option<CondOp> {
    match v {
        ValueV::Unk(c) => if c == '>' {
            Some(CondOp::SuperiorStrict)
        } else if c == '<' {
            Some(CondOp::InferiorStrict)
        } else if c == '=' {
            Some(CondOp::Equal)
        } else {
            None
        },
        ValueV::Str(s) => if s == ">"@ {
            Some(CondOp::SuperiorStrict)
        } else if s == "<"@ {
            Some(CondOp::InferiorStrict)
        } else if s == "="@ {
            Some(CondOp::Equal)
        } else if s == ">="@ {
            Some(CondOp::Superior)
        } else if s == "<="@ {
            Some(CondOp::Inferior)
        } else {
            None
        },
        _ => None,
    }
}

/// What the `check_condition` factory makes of its options: both
/// expressions compiled and the comparison operator, or the message of
/// the first fault.
pub open spec fn spec_check_condition_node(opt: Option<ValueV>) -> Result<LeafS, Seq<char>> {
    match opt {
        Some(ValueV::Dict(entries)) => match dict_lookup(entries, "exp1"@) {
            None => Err("Expected value for key exp1"@),
            Some(ValueV::List(items1)) => match spec_compile(items1) {
                Err(bad) => Err(compile_err_msg(bad)),
                Ok(e1) => match dict_lookup(entries, "exp2"@) {
                    None => Err("Expected value for key exp2"@),
                    Some(ValueV::List(items2)) => match spec_compile(items2) {
                        Err(bad) => Err(compile_err_msg(bad)),
                        Ok(e2) => match dict_lookup(entries, "operator"@) {
                            None => Err("Expected value for key operator"@),
                            Some(opv) => match cond_op_of(opv) {
                                Some(op) => Ok(LeafS::Condition(e1, e2, op)),
                                None => match opv {
                                    ValueV::Unk(c) => Err("Expected operator, found "@ + seq![c]),
                                    ValueV::Str(s) => Err("Expected operator, found "@ + s),
                                    other => Err("Expected operator, found "@ + value_desc(other)),
                                },
                            },
                        },
                    },
                    Some(other) => Err("Expected array of operands, found "@ + value_desc(other)),
                },
            },
            Some(other) => Err("Expected array of operands, found "@ + value_desc(other)),
        },
        other => Err("Expected hashmap, found "@ + opt_desc(other)),
    }
}

/// The mathematical value of an optional argument.
pub open spec fn opt_view(options: Option<Value>) -> Option<ValueV> {
    match options {
        Some(v) => Some(crate::value::value_view(v)),
        None => None,
    }
}

/// Builds a `check_condition` leaf factory from the source-text
/// options: a map holding the `exp1` and `exp2` expression arrays and
/// the `operator` to compare their values with.
pub fn check_condition_node(options: &Option<Value>) -> (r: Result<LeafFactory, String>)
    ensures
        ({
            match spec_check_condition_node(opt_view(*options)) {
                Ok(ls) => r matches Ok(f) && f@ == ls,
                Err(m) => r matches Err(s) && s@ == m,
            }
        }),
{
    let entries = match options {
        Some(Value::Dict(entries)) => entries,
        other => {
            let mut m = String::from_str("Expected hashmap, found ");
            match other {
                None => m.append("nothing"),
                Some(v) => {
                    let d = crate::expressions::value_desc_exec(v);
                    m.append(d.as_str());
                }
            }
            return Err(m);
        }
    };
    let exp1 = match crate::value::map_get(entries, "exp1") {
        None => {
            return Err(String::from_str("Expected value for key exp1"));
        }
        Some(Value::Array(array)) => match generate_postfixed_expression(array) {
            Ok(e) => e,
            Err(m) => {
                return Err(m);
            }
        },
        Some(other) => {
            let mut m = String::from_str("Expected array of operands, found ");
            let d = crate::expressions::value_desc_exec(other);
            m.append(d.as_str());
            return Err(m);
        }
    };
    let exp2 = match crate::value::map_get(entries, "exp2") {
        None => {
            return Err(String::from_str("Expected value for key exp2"));
        }
        Some(Value::Array(array)) => match generate_postfixed_expression(array) {
            Ok(e) => e,
            Err(m) => {
                return Err(m);
            }
        },
        Some(other) => {
            let mut m = String::from_str("Expected array of operands, found ");
            let d = crate::expressions::value_desc_exec(other);
            m.append(d.as_str());
            return Err(m);
        }
    };
    let operator = match crate::value::map_get(entries, "operator") {
        None => {
            return Err(String::from_str("Expected value for key operator"));
        }
        Some(Value::Unknown(c)) => {
            if *c == '>' {
                CondOp::SuperiorStrict
            } else if *c == '<' {
                CondOp::InferiorStrict
            } else if *c == '=' {
                CondOp::Equal
            } else {
                let mut m = String::from_str("Expected operator, found ");
                push_char(&mut m, *c);
                return Err(m);
            }
        }
        Some(Value::String(s)) => {
            if str_eq(s.as_str(), ">") {
                CondOp::SuperiorStrict
            } else if str_eq(s.as_str(), "<") {
                CondOp::InferiorStrict
            } else if str_eq(s.as_str(), "=") {
                CondOp::Equal
            } else if str_eq(s.as_str(), ">=") {
                CondOp::Superior
            } else if str_eq(s.as_str(), "<=") {
                CondOp::Inferior
            } else {
                let mut m = String::from_str("Expected operator, found ");
                m.append(s.as_str());
                return Err(m);
            }
        }
        Some(other) => {
            let mut m = String::from_str("Expected operator, found ");
            let d = crate::expressions::value_desc_exec(other);
            m.append(d.as_str());
            return Err(m);
        }
    };
    Ok(LeafFactory::Condition(ConditionChecker { exp1, exp2, operator }))
}

} // verus!
