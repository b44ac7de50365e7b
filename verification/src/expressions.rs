//! The expression mini-language: postfix integer programs compiled from
//! array-form values and evaluated against the context's variables.
//!
//! A postfix expression `member1 member2 operator` computes the
//! conventional `member1 operator member2`; a member is a constant, a
//! variable, or the result of an inner expression.

use vstd::prelude::*;
use vstd::string::*;
use crate::value::{Value, ValueV, Operator, value_views};
use crate::standard::{Context, StoreKind, StoreV};
use crate::chars::push_char;

verus! {

/// One member of a postfix expression.
#[derive(Debug)]
pub enum PostfixedExpressionMember {
    Op(Operator),
    Constant(i64),
    Variable(String),
}

/// The mathematical value of a postfix expression member.
pub enum MemberV {
    Op(Operator),
    Constant(int),
    Variable(Seq<char>),
}

impl View for PostfixedExpressionMember {
    type V = MemberV;

    open spec fn view(&self) -> MemberV {
        match self {
            PostfixedExpressionMember::Op(op) => MemberV::Op(*op),
            PostfixedExpressionMember::Constant(n) => MemberV::Constant(*n as int),
            PostfixedExpressionMember::Variable(s) => MemberV::Variable(s@),
        }
    }
}

impl DeepView for PostfixedExpressionMember {
    type V = MemberV;

    open spec fn deep_view(&self) -> MemberV {
        self.view()
    }
}

/// Copies a postfix expression.
pub fn clone_members(ms: &Vec<PostfixedExpressionMember>) -> (r: Vec<PostfixedExpressionMember>)
    ensures
        r.deep_view() == ms.deep_view(),
{
    let mut out: Vec<PostfixedExpressionMember> = Vec::new();
    let mut i: usize = 0;
    while i < ms.len()
        invariant
            0 <= i <= ms@.len(),
            out@.len() == i,
            forall|j: int| 0 <= j < i ==> out@[j]@ == ms@[j]@,
        decreases ms@.len() - i,
    {
        let m = match &ms[i] {
            PostfixedExpressionMember::Op(op) => PostfixedExpressionMember::Op(*op),
            PostfixedExpressionMember::Constant(n) => PostfixedExpressionMember::Constant(*n),
            PostfixedExpressionMember::Variable(s) => PostfixedExpressionMember::Variable(
                s.clone(),
            ),
        };
        out.push(m);
        i += 1;
    }
    proof {
        assert(out.deep_view() =~= ms.deep_view());
    }
    out
}

/// A runtime expression error; such an error is fatal to the current
/// tick.
#[derive(Debug)]
pub enum EvalErr {
    /// An operator found fewer than two operands on the stack.
    MissingOperand,
    /// The expression left no result on the stack.
    NoResult,
    /// The expression left more than one value on the stack.
    Residue,
    /// A variable is not bound in the context.
    MissingVariable(String),
    /// A variable is bound to a value that is not an integer.
    WrongKind(String),
    /// An arithmetic step left the signed 64-bit range.
    Overflow,
    /// A division by zero.
    DivisionByZero,
}

/// The mathematical value of a runtime expression error.
pub enum EvalErrV {
    MissingOperand,
    NoResult,
    Residue,
    MissingVariable(Seq<char>),
    WrongKind(Seq<char>),
    Overflow,
    DivisionByZero,
}

impl View for EvalErr {
    type V = EvalErrV;

    open spec fn view(&self) -> EvalErrV {
        match self {
            EvalErr::MissingOperand => EvalErrV::MissingOperand,
            EvalErr::NoResult => EvalErrV::NoResult,
            EvalErr::Residue => EvalErrV::Residue,
            EvalErr::MissingVariable(s) => EvalErrV::MissingVariable(s@),
            EvalErr::WrongKind(s) => EvalErrV::WrongKind(s@),
            EvalErr::Overflow => EvalErrV::Overflow,
            EvalErr::DivisionByZero => EvalErrV::DivisionByZero,
        }
    }
}

impl EvalErr {
    /// The message for a runtime expression error.
    pub open spec fn msg_spec(self) -> Seq<char> {
        match self@ {
            EvalErrV::MissingOperand => "Expression error: missing operand"@,
            EvalErrV::NoResult => "Expression error: no result"@,
            EvalErrV::Residue => "Expression error: leftover operands"@,
            EvalErrV::MissingVariable(s) => "Expression error: missing variable "@ + s,
            EvalErrV::WrongKind(s) => "Expression error: variable is not an integer: "@ + s,
            EvalErrV::Overflow => "Expression error: arithmetic overflow"@,
            EvalErrV::DivisionByZero => "Expression error: division by zero"@,
        }
    }

    /// Renders the error as its message.
    pub fn message(&self) -> (r: String)
        ensures
            r@ == self.msg_spec(),
    {
        match self {
            EvalErr::MissingOperand => String::from_str("Expression error: missing operand"),
            EvalErr::NoResult => String::from_str("Expression error: no result"),
            EvalErr::Residue => String::from_str("Expression error: leftover operands"),
            EvalErr::MissingVariable(s) => {
                let mut m = String::from_str("Expression error: missing variable ");
                m.append(s.as_str());
                m
            }
            EvalErr::WrongKind(s) => {
                let mut m = String::from_str("Expression error: variable is not an integer: ");
                m.append(s.as_str());
                m
            }
            EvalErr::Overflow => String::from_str("Expression error: arithmetic overflow"),
            EvalErr::DivisionByZero => String::from_str("Expression error: division by zero"),
        }
    }
}

/// A short description of a value's shape, for error messages.
pub open spec fn value_desc(v: ValueV) -> Seq<char> {
    match v {
        ValueV::Str(_) => "a string"@,
        ValueV::Dict(_) => "a map"@,
        ValueV::List(_) => "an array"@,
        ValueV::Int(_) => "an integer"@,
        ValueV::Op(_) => "an operator"@,
        ValueV::Unk(_) => "an unknown character"@,
    }
}

/// The message for an operand that no expression member can be made of.
pub open spec fn compile_err_msg(v: ValueV) -> Seq<char> {
    "Expected operand, found "@ + value_desc(v)
}

/// The one-pass translation of an array-form expression: strings become
/// variables, integers constants, operators operations; anything else
/// is an error naming the first offending element.
pub open spec fn spec_compile(vs: Seq<ValueV>) -> Result<Seq<MemberV>, ValueV>
    decreases vs.len(),
{
    if vs.len() == 0 {
        Ok(Seq::empty())
    } else {
        let head = match vs[0] {
            ValueV::Str(s) => Ok(MemberV::Variable(s)),
            ValueV::Int(n) => Ok(MemberV::Constant(n)),
            ValueV::Op(op) => Ok(MemberV::Op(op)),
            other => Err(other),
        };
        match head {
            Ok(m) => match spec_compile(vs.drop_first()) {
                Ok(rest) => Ok(seq![m] + rest),
                Err(e) => Err(e),
            },
            Err(e) => Err(e),
        }
    }
}

/// Prepends already-compiled members to the outcome of compiling the
/// rest.
pub open spec fn prepend_members(
    acc: Seq<MemberV>,
    r: Result<Seq<MemberV>, ValueV>,
) -> Result<Seq<MemberV>, ValueV> {
    match r {
        Ok(rest) => Ok(acc + rest),
        Err(e) => Err(e),
    }
}

/// Renders the description of one value shape.
pub fn value_desc_exec(v: &Value) -> (r: String)
    ensures
        r@ == value_desc(v@),
{
    match v {
        Value::String(_) => String::from_str("a string"),
        Value::Dict(_) => String::from_str("a map"),
        Value::Array(_) => String::from_str("an array"),
        Value::Integer(_) => String::from_str("an integer"),
        Value::Operator(_) => String::from_str("an operator"),
        Value::Unknown(_) => String::from_str("an unknown character"),
    }
}

/// Compiles an array-form expression into a postfix program.
pub fn generate_postfixed_expression(array: &Vec<Value>) -> (r: Result<
    Vec<PostfixedExpressionMember>,
    String,
>)
    ensures
        ({
            match spec_compile(value_views(array@)) {
                Ok(ms) => r matches Ok(v) && v.deep_view() == ms,
                Err(bad) => r matches Err(m) && m@ == compile_err_msg(bad),
            }
        }),
{
    let ghost vs = value_views(array@);
    let mut out: Vec<PostfixedExpressionMember> = Vec::new();
    let mut i: usize = 0;
    proof {
        crate::value::lemma_value_views(array@);
        assert(vs.skip(0) =~= vs);
        assert(out.deep_view() =~= Seq::<MemberV>::empty());
        match spec_compile(vs) {
            Ok(ms) => {
                assert(out.deep_view() + ms =~= ms);
            }
            Err(_) => {}
        }
    }
    while i < array.len()
        invariant
            0 <= i <= array@.len(),
            vs == value_views(array@),
            vs.len() == array@.len(),
            forall|j: int| 0 <= j < array@.len() ==> vs[j] == crate::value::value_view(array@[j]),
            prepend_members(out.deep_view(), spec_compile(vs.skip(i as int))) == spec_compile(vs),
        decreases array@.len() - i,
    {
        let ghost rem = vs.skip(i as int);
        proof {
            assert(rem.len() > 0);
            assert(rem[0] == vs[i as int]);
            assert(rem.drop_first() =~= vs.skip(i as int + 1));
        }
        let ghost prev = out.deep_view();
        let m = match &array[i] {
            Value::String(s) => PostfixedExpressionMember::Variable(s.clone()),
            Value::Integer(n) => PostfixedExpressionMember::Constant(*n),
            Value::Operator(op) => PostfixedExpressionMember::Op(*op),
            other => {
                let mut msg = String::from_str("Expected operand, found ");
                let d = value_desc_exec(other);
                msg.append(d.as_str());
                return Err(msg);
            }
        };
        let ghost mv = m@;
        out.push(m);
        proof {
            assert(out.deep_view() =~= prev.push(mv));
            match spec_compile(vs.skip(i as int + 1)) {
                Ok(rest) => {
                    assert(spec_compile(rem) == Ok::<Seq<MemberV>, ValueV>(seq![mv] + rest));
                    assert(prev + (seq![mv] + rest) =~= out.deep_view() + rest);
                }
                Err(_) => {}
            }
        }
        i += 1;
    }
    proof {
        assert(vs.skip(i as int).len() == 0);
        assert(spec_compile(vs.skip(i as int)) == Ok::<Seq<MemberV>, ValueV>(Seq::empty()));
        assert(out.deep_view() + Seq::<MemberV>::empty() =~= out.deep_view());
    }
    Ok(out)
}

/// Truncating integer division, as the machine division performs it.
pub open spec fn div_trunc(a: int, b: int) -> int {
    if a == 0 {
        0
    } else if a > 0 && b > 0 {
        a / b
    } else if a < 0 && b < 0 {
        (a * -1) / (b * -1)
    } else if a < 0 {
        ((a * -1) / b) * -1
    } else {
        (a / (b * -1)) * -1
    }
}

/// The exact value of one arithmetic operation.
pub open spec fn apply_op(op: Operator, a: int, b: int) -> int {
    match op {
        Operator::Plus => a + b,
        Operator::Minus => a - b,
        Operator::Multiply => a * b,
        Operator::Divide => div_trunc(a, b),
    }
}

/// Runs the members of a postfix program over a stack.
pub open spec fn eval_members(
    ms: Seq<MemberV>,
    vars: Map<Seq<char>, StoreV>,
    stack: Seq<i64>,
) -> Result<Seq<i64>, EvalErrV>
    decreases ms.len(),
{
    if ms.len() == 0 {
        Ok(stack)
    } else {
        match ms[0] {
            MemberV::Constant(n) => if i64::MIN <= n <= i64::MAX {
                eval_members(ms.drop_first(), vars, stack.push(n as i64))
            } else {
                Err(EvalErrV::Overflow)
            },
            MemberV::Variable(name) => if !vars.dom().contains(name) {
                Err(EvalErrV::MissingVariable(name))
            } else {
                match vars[name] {
                    StoreV::I64(v) => eval_members(ms.drop_first(), vars, stack.push(v)),
                    StoreV::Str(_) => Err(EvalErrV::WrongKind(name)),
                }
            },
            MemberV::Op(op) => if stack.len() < 2 {
                Err(EvalErrV::MissingOperand)
            } else {
                let a = stack[stack.len() - 2] as int;
                let b = stack[stack.len() - 1] as int;
                if op == Operator::Divide && b == 0 {
                    Err(EvalErrV::DivisionByZero)
                } else {
                    let v = apply_op(op, a, b);
                    if i64::MIN <= v <= i64::MAX {
                        eval_members(
                            ms.drop_first(),
                            vars,
                            stack.take(stack.len() - 2).push(v as i64),
                        )
                    } else {
                        Err(EvalErrV::Overflow)
                    }
                }
            },
        }
    }
}

/// The value of a whole postfix program: exactly one value must remain
/// on the stack.
pub open spec fn spec_eval(ms: Seq<MemberV>, vars: Map<Seq<char>, StoreV>) -> Result<
    i64,
    EvalErrV,
> {
    match eval_members(ms, vars, Seq::empty()) {
        Ok(stack) => if stack.len() == 1 {
            Ok(stack[0])
        } else if stack.len() == 0 {
            Err(EvalErrV::NoResult)
        } else {
            Err(EvalErrV::Residue)
        },
        Err(e) => Err(e),
    }
}

/// Evaluates a postfix program against the context's integer variables.
pub fn evaluate_expression_int(context: &Context, expression: &Vec<PostfixedExpressionMember>)
    -> (r: Result<i64, EvalErr>)
    ensures
        ({
            match spec_eval(expression.deep_view(), context@.vars) {
                Ok(v) => r matches Ok(x) && x == v,
                Err(e) => r matches Err(x) && x@ == e,
            }
        }),
{
    let ghost ms = expression.deep_view();
    let ghost vars = context@.vars;
    let mut stack: Vec<i64> = Vec::new();
    let mut i: usize = 0;
    proof {
        assert(ms.skip(0) =~= ms);
    }
    while i < expression.len()
        invariant
            0 <= i <= expression@.len(),
            ms == expression.deep_view(),
            ms.len() == expression@.len(),
            vars == context@.vars,
            forall|j: int| 0 <= j < ms.len() ==> ms[j] == expression@[j]@,
            eval_members(ms.skip(i as int), vars, stack@) == eval_members(ms, vars, Seq::empty()),
        decreases expression@.len() - i,
    {
        let ghost rem = ms.skip(i as int);
        proof {
            assert(rem.len() > 0);
            assert(rem[0] == ms[i as int]);
            assert(rem.drop_first() =~= ms.skip(i as int + 1));
        }
        match &expression[i] {
            PostfixedExpressionMember::Constant(n) => {
                stack.push(*n);
            }
            PostfixedExpressionMember::Variable(name) => {
                match context.get(name.as_str()) {
                    None => {
                        return Err(EvalErr::MissingVariable(name.clone()));
                    }
                    Some(StoreKind::I64(v)) => {
                        stack.push(*v);
                    }
                    Some(StoreKind::String(_)) => {
                        return Err(EvalErr::WrongKind(name.clone()));
                    }
                }
            }
            PostfixedExpressionMember::Op(op) => {
                if stack.len() < 2 {
                    return Err(EvalErr::MissingOperand);
                }
                let b = stack[stack.len() - 1];
                let a = stack[stack.len() - 2];
                let computed = match op {
                    Operator::Plus => match a.checked_add(b) {
                        Some(v) => v,
                        None => {
                            return Err(EvalErr::Overflow);
                        }
                    },
                    Operator::Minus => match a.checked_sub(b) {
                        Some(v) => v,
                        None => {
                            return Err(EvalErr::Overflow);
                        }
                    },
                    Operator::Multiply => match a.checked_mul(b) {
                        Some(v) => v,
                        None => {
                            return Err(EvalErr::Overflow);
                        }
                    },
                    Operator::Divide => {
                        if b == 0 {
                            return Err(EvalErr::DivisionByZero);
                        }
                        match a.checked_div(b) {
                            Some(v) => {
                                assert(v as int == div_trunc(a as int, b as int));
                                v
                            }
                            None => {
                                assert(apply_op(*op, a as int, b as int)
                                    == div_trunc(a as int, b as int));
                                return Err(EvalErr::Overflow);
                            }
                        }
                    }
                };
                let ghost prev_stack = stack@;
                stack.pop();
                stack.pop();
                stack.push(computed);
                proof {
                    assert(stack@ =~= prev_stack.take(prev_stack.len() - 2).push(computed));
                }
            }
        }
        i += 1;
    }
    proof {
        assert(ms.skip(i as int).len() == 0);
        assert(eval_members(ms.skip(i as int), vars, stack@) == Ok::<Seq<i64>, EvalErrV>(stack@));
    }
    if stack.len() == 1 {
        let v = stack[0];
        Ok(v)
    } else if stack.len() == 0 {
        Err(EvalErr::NoResult)
    } else {
        Err(EvalErr::Residue)
    }
}

/// An infix expression tree: what an array-form expression encodes.
pub enum Expr {
    Const(int),
    Var(Seq<char>),
    Binary(Operator, Box<Expr>, Box<Expr>),
}

/// The postfix encoding of an expression tree: both operands, then the
/// operator.
pub open spec fn expr_members(e: Expr) -> Seq<MemberV>
    decreases e,
{
    match e {
        Expr::Const(n) => seq![MemberV::Constant(n)],
        Expr::Var(s) => seq![MemberV::Variable(s)],
        Expr::Binary(op, l, r) => expr_members(*l) + expr_members(*r) + seq![MemberV::Op(op)],
    }
}

/// The mathematical value of an expression tree against integer
/// variables: `None` when a variable is missing or not an integer,
/// when a division by zero occurs, or when an intermediate result
/// leaves the signed 64-bit range.
pub open spec fn expr_val(e: Expr, vars: Map<Seq<char>, StoreV>) -> Option<i64>
    decreases e,
{
    match e {
        Expr::Const(n) => if i64::MIN <= n <= i64::MAX {
            Some(n as i64)
        } else {
            None
        },
        Expr::Var(s) => if vars.dom().contains(s) {
            match vars[s] {
                StoreV::I64(v) => Some(v),
                StoreV::Str(_) => None,
            }
        } else {
            None
        },
        Expr::Binary(op, l, r) => match (expr_val(*l, vars), expr_val(*r, vars)) {
            (Some(a), Some(b)) => if op == Operator::Divide && b == 0 {
                None
            } else {
                let v = apply_op(op, a as int, b as int);
                if i64::MIN <= v <= i64::MAX {
                    Some(v as i64)
                } else {
                    None
                }
            },
            _ => None,
        },
    }
}

/// Running the postfix encoding of an evaluable expression pushes its
/// value onto the stack and goes on with the rest of the program.
proof fn lemma_members_eval_pushes(
    e: Expr,
    rest: Seq<MemberV>,
    vars: Map<Seq<char>, StoreV>,
    stack: Seq<i64>,
)
    requires
        expr_val(e, vars) is Some,
    ensures
        eval_members(expr_members(e) + rest, vars, stack) == eval_members(
            rest,
            vars,
            stack.push(expr_val(e, vars)->0),
        ),
    decreases e,
{
    let v = expr_val(e, vars)->0;
    match e {
        Expr::Const(n) => {
            let ms = expr_members(e) + rest;
            assert(ms[0] == MemberV::Constant(n));
            assert(ms.drop_first() =~= rest);
        }
        Expr::Var(name) => {
            let ms = expr_members(e) + rest;
            assert(ms[0] == MemberV::Variable(name));
            assert(ms.drop_first() =~= rest);
        }
        Expr::Binary(op, l, r) => {
            let ml = expr_members(*l);
            let mr = expr_members(*r);
            let a = expr_val(*l, vars)->0;
            let b = expr_val(*r, vars)->0;
            let tail = seq![MemberV::Op(op)] + rest;
            assert((ml + mr + seq![MemberV::Op(op)]) + rest =~= ml + (mr + tail));
            lemma_members_eval_pushes(*l, mr + tail, vars, stack);
            lemma_members_eval_pushes(*r, tail, vars, stack.push(a));
            let st2 = stack.push(a).push(b);
            assert(st2.len() >= 2);
            assert(st2[st2.len() - 2] == a);
            assert(st2[st2.len() - 1] == b);
            assert(tail[0] == MemberV::Op(op));
            assert(tail.drop_first() =~= rest);
            assert(st2.take(st2.len() - 2) =~= stack);
            assert(v as int == apply_op(op, a as int, b as int));
        }
    }
}

/// Postfix evaluation: running the compiled (postfix) form of an
/// expression yields exactly the mathematical value of the infix
/// expression it encodes, whenever that value exists.
pub proof fn lemma_postfix_evaluation(e: Expr, vars: Map<Seq<char>, StoreV>)
    requires
        expr_val(e, vars) is Some,
    ensures
        spec_eval(expr_members(e), vars) == Ok::<i64, EvalErrV>(expr_val(e, vars)->0),
{
    lemma_members_eval_pushes(e, Seq::empty(), vars, Seq::empty());
    assert(expr_members(e) + Seq::<MemberV>::empty() =~= expr_members(e));
    let v = expr_val(e, vars)->0;
    assert(eval_members(expr_members(e), vars, Seq::empty())
        == Ok::<Seq<i64>, EvalErrV>(Seq::<i64>::empty().push(v)));
    assert(Seq::<i64>::empty().push(v).len() == 1);
    assert(Seq::<i64>::empty().push(v)[0] == v);
}

/// The behaviour of an `evaluate_int` leaf: evaluates its expression
/// and writes the result into a context variable.
#[derive(Debug)]
pub struct ExpressionEvaluator {
    pub expression: Vec<PostfixedExpressionMember>,
    pub variable: String,
}

/// The warning logged when binding a result replaces an existing
/// variable.
pub open spec fn replaced_warning(var: Seq<char>) -> Seq<char> {
    "WARNING: replaced variable "@ + var
}

impl ExpressionEvaluator {
    /// Evaluates the expression and binds the result, warning in the
    /// log when that replaces a pre-existing value; an expression error
    /// aborts the tick and leaves the context unchanged.
    pub fn visit(&self, context: &mut Context) -> (r: Result<crate::tree::VisitResult, EvalErr>)
        ensures
            ({
                match spec_eval(self.expression.deep_view(), old(context)@.vars) {
                    Err(e) => r matches Err(x) && x@ == e && final(context)@ == old(context)@,
                    Ok(v) => r matches Ok(rv) && rv == crate::tree::VisitResult::Success
                        && final(context)@.vars == old(context)@.vars.insert(
                            self.variable@,
                            StoreV::I64(v),
                        )
                        && final(context)@.log == (
                        if old(context)@.vars.dom().contains(self.variable@) {
                            old(context)@.log.push(replaced_warning(self.variable@))
                        } else {
                            old(context)@.log
                        }),
                }
            }),
    {
        let result = match evaluate_expression_int(context, &self.expression) {
            Ok(v) => v,
            Err(e) => {
                return Err(e);
            }
        };
        let replaced = context.get(self.variable.as_str()).is_some();
        context.insert_value(self.variable.clone(), StoreKind::I64(result));
        if replaced {
            let mut warning = String::from_str("WARNING: replaced variable ");
            warning.append(self.variable.as_str());
            context.log_message(warning);
        }
        Ok(crate::tree::VisitResult::Success)
    }
}

/// What the `evaluate_int` factory makes of its options: a map whose
/// distinct keys are exactly the `expression` array and the `result`
/// variable name.
pub open spec fn spec_evaluate_int_node(opt: Option<ValueV>) -> Result<
    crate::tree::LeafS,
    Seq<char>,
> {
    match opt {
        Some(ValueV::Dict(entries)) => if crate::value::distinct_key_count(entries) != 2 {
            Err(
                "Expected options with 2 key / value pairs, found "@
                    + crate::chars::dec_of(crate::value::distinct_key_count(entries)),
            )
        } else {
            match crate::value::dict_lookup(entries, "expression"@) {
                Some(ValueV::List(items)) => match spec_compile(items) {
                    Err(bad) => Err(compile_err_msg(bad)),
                    Ok(ms) => match crate::value::dict_lookup(entries, "result"@) {
                        Some(ValueV::Str(name)) => Ok(crate::tree::LeafS::Evaluator(ms, name)),
                        other => Err(
                            "Expected variable name, found "@ + spec_opt_desc(other),
                        ),
                    },
                },
                other => Err("Expected expression array, found "@ + spec_opt_desc(other)),
            }
        },
        other => Err("Expected hashmap, found "@ + spec_opt_desc(other)),
    }
}

/// A description of an absent or present value.
pub open spec fn spec_opt_desc(o: Option<ValueV>) -> Seq<char> {
    match o {
        None => "nothing"@,
        Some(v) => value_desc(v),
    }
}

/// Builds an `evaluate_int` leaf factory from the source-text options:
/// a map `{ expression: [...], result: "name" }`.
pub fn evaluate_int_node(options: &Option<Value>) -> (r: Result<crate::tree::LeafFactory, String>)
    ensures
        ({
            match spec_evaluate_int_node(crate::conditions::opt_view(*options)) {
                Ok(ls) => r matches Ok(f) && f@ == ls,
                Err(m) => r matches Err(s) && s@ == m,
            }
        }),
{
    let entries = match options {
        Some(Value::Dict(entries)) => entries,
        other => {
            let mut m = String::from_str("Expected hashmap, found ");
            match other {
                None => m.append("nothing"),
                Some(v) => {
                    let d = value_desc_exec(v);
                    m.append(d.as_str());
                }
            }
            return Err(m);
        }
    };
    proof {
        crate::value::lemma_entry_views(entries@);
    }
    let keys = crate::value::count_distinct_keys(entries);
    if keys != 2 {
        let mut m = String::from_str("Expected options with 2 key / value pairs, found ");
        let n = crate::chars::u64_to_string(keys as u64);
        m.append(n.as_str());
        return Err(m);
    }
    let expression = match crate::value::map_get(entries, "expression") {
        Some(Value::Array(array)) => match generate_postfixed_expression(array) {
            Ok(e) => e,
            Err(m) => {
                return Err(m);
            }
        },
        other => {
            let mut m = String::from_str("Expected expression array, found ");
            match other {
                None => m.append("nothing"),
                Some(v) => {
                    let d = value_desc_exec(v);
                    m.append(d.as_str());
                }
            }
            return Err(m);
        }
    };
    let variable = match crate::value::map_get(entries, "result") {
        Some(Value::String(name)) => name.clone(),
        other => {
            let mut m = String::from_str("Expected variable name, found ");
            match other {
                None => m.append("nothing"),
                Some(v) => {
                    let d = value_desc_exec(v);
                    m.append(d.as_str());
                }
            }
            return Err(m);
        }
    };
    Ok(crate::tree::LeafFactory::Evaluator(ExpressionEvaluator { expression, variable }))
}

} // verus!
