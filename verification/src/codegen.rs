//! Lowering of a decoded CPS function body to a Cranelift emission plan: the
//! exact sequence of `FunctionBuilder` operations the JIT performs, with values,
//! variables and blocks numbered in the order they are created.

use vstd::prelude::*;
use vstd::string::*;
use crate::cps_decode::{binop_value, body_ops, decode_body, BinOp, FuncHeader, Op, opsv};
use crate::text::{chars_of, chars_eq, decimal, decimal_chars, starts_with, string_from_chars, strings};
use crate::symbols::{kernel_import, is_kernel_import};
use crate::auth::{check_at, deployment_principal, denied_message, law_no_engine_denies, AuthRegistry, AuthorizationEngine, Decision};

verus! {

/// Integer arithmetic instructions.
#[derive(Clone, Copy, Debug, PartialEq, Eq, Structural)]
pub enum Arith {
    Add,
    Sub,
    Mul,
}

/// Signed integer comparisons.
#[derive(Clone, Copy, Debug, PartialEq, Eq, Structural)]
pub enum Cond {
    Eq,
    Ne,
    Lt,
    Gt,
    Le,
    Ge,
}

/// The target of a call.
#[derive(Clone, Debug, PartialEq, Eq)]
pub enum Callee<S> {
    /// The function at this position of the program's function table.
    Local(usize),
    /// A runtime builtin (`__…`, `au_…`) imported under this name, taking as
    /// many `i64` parameters as the call passes and returning one `i64`.
    Builtin(S),
    /// A kernel import (`uk_…`, `uz_…`), imported like a builtin; its calls
    /// are gated by [`authorize_kernel_calls`].
    Kernel(S),
    /// The allocator `au_alloc` (one `i64` size, returns the address).
    Alloc,
}

/// One builder operation. Operations marked "defines a value" number their
/// result with the next value id; `DeclareVar` numbers the next variable;
/// `CreateBlock` the next block.
#[derive(Clone, Debug, PartialEq, Eq)]
pub enum Clif<S> {
    /// Creates a block.
    CreateBlock,
    /// Makes the block the insertion point.
    SwitchTo(usize),
    /// Gives the block the function's parameters.
    EntryParams(usize),
    /// Defines a value: the block's parameter at the position.
    Param(usize, usize),
    /// Defines a value: an `i64` constant.
    IConst(i64),
    /// Defines a value: the variable's current value.
    UseVar(usize),
    /// Declares an `i64` variable.
    DeclareVar,
    /// Assigns the value to the variable.
    DefVar(usize, usize),
    /// Defines a value: the operation on two values.
    Arith(Arith, usize, usize),
    /// Defines a value: the comparison of two values (a boolean).
    Compare(Cond, usize, usize),
    /// Defines a value: the boolean zero-extended to `i64`.
    Uextend(usize),
    /// Defines a value: the bitwise complement.
    BNot(usize),
    /// Defines a value: the `i64` stored at the address.
    Load(usize),
    /// Stores the value at the address plus the offset.
    Store(usize, usize, i32),
    /// Passes the value as the next argument of the next call.
    Arg(usize),
    /// Defines a value: the result of calling the callee with the pending arguments.
    Call(Callee<S>),
    /// Branches on the value to the first block if it is non-zero, else to the second.
    Brif(usize, usize, usize),
    /// Jumps to the block.
    Jump(usize),
    /// Returns the value.
    Return(usize),
    /// Calls the callee with the pending arguments and returns its result.
    ReturnCall(Callee<S>),
}

impl View for Callee<String> {
    type V = Callee<Seq<char>>;

    open spec fn view(&self) -> Callee<Seq<char>> {
        match self {
            Callee::Local(i) => Callee::Local(*i),
            Callee::Builtin(n) => Callee::Builtin(n@),
            Callee::Kernel(n) => Callee::Kernel(n@),
            Callee::Alloc => Callee::Alloc,
        }
    }
}

impl View for Clif<String> {
    type V = Clif<Seq<char>>;

    open spec fn view(&self) -> Clif<Seq<char>> {
        match self {
            Clif::CreateBlock => Clif::CreateBlock,
            Clif::SwitchTo(b) => Clif::SwitchTo(*b),
            Clif::EntryParams(b) => Clif::EntryParams(*b),
            Clif::Param(b, i) => Clif::Param(*b, *i),
            Clif::IConst(v) => Clif::IConst(*v),
            Clif::UseVar(x) => Clif::UseVar(*x),
            Clif::DeclareVar => Clif::DeclareVar,
            Clif::DefVar(x, v) => Clif::DefVar(*x, *v),
            Clif::Arith(o, a, b) => Clif::Arith(*o, *a, *b),
            Clif::Compare(c, a, b) => Clif::Compare(*c, *a, *b),
            Clif::Uextend(a) => Clif::Uextend(*a),
            Clif::BNot(a) => Clif::BNot(*a),
            Clif::Load(a) => Clif::Load(*a),
            Clif::Store(v, a, o) => Clif::Store(*v, *a, *o),
            Clif::Arg(a) => Clif::Arg(*a),
            Clif::Call(c) => Clif::Call(c@),
            Clif::Brif(c, t, e) => Clif::Brif(*c, *t, *e),
            Clif::Jump(b) => Clif::Jump(*b),
            Clif::Return(v) => Clif::Return(*v),
            Clif::ReturnCall(c) => Clif::ReturnCall(c@),
        }
    }
}

/// The views of a plan.
pub open spec fn clifv(v: Seq<Clif<String>>) -> Seq<Clif<Seq<char>>> {
    v.map_values(|i: Clif<String>| i@)
}

/// Why a body could not be lowered.
#[derive(Clone, Debug, PartialEq, Eq)]
pub enum CodegenError<S> {
    /// An error the code generator reports.
    Message(S),
    /// A call of an intrinsic with fewer arguments than it takes; the text
    /// names the intrinsic, what it takes and what it got.
    Arity(S),
}

impl View for CodegenError<String> {
    type V = CodegenError<Seq<char>>;

    open spec fn view(&self) -> CodegenError<Seq<char>> {
        match self {
            CodegenError::Message(m) => CodegenError::Message(m@),
            CodegenError::Arity(m) => CodegenError::Arity(m@),
        }
    }
}

/// An open control construct and the blocks it will still switch to.
#[derive(Clone, Copy, Debug, PartialEq, Eq, Structural)]
pub enum Frame {
    /// An `if`: its `else` and merge blocks; whether the `else` branch is open.
    If { els: usize, merge: usize, in_else: bool },
    /// A `while`: its header, body and exit blocks; whether the body is open.
    While { head: usize, body: usize, exit: usize, in_body: bool },
    /// A `case`: the scrutinee, the merge block, and while an arm is open the
    /// block of the next test.
    Case { scrut: usize, merge: usize, in_arm: bool, next: usize },
}

/// The state of the lowering between two operations.
pub struct Lctx {
    /// Values defined so far.
    pub values: nat,
    /// The names of the variables declared so far, by variable id.
    pub vars: Seq<Seq<char>>,
    /// Blocks created so far.
    pub blocks: nat,
    /// Whether the current block already ends in a terminator.
    pub terminated: bool,
    /// The values of the expressions not yet consumed.
    pub stack: Seq<usize>,
    /// The open control constructs, innermost last.
    pub frames: Seq<Frame>,
}

pub open spec fn malformed() -> Seq<char> {
    "malformed operation stream"@
}

/// The report of the intrinsic `name`, which takes `need` arguments, called with `got`.
pub open spec fn arity_message(name: Seq<char>, need: nat, got: nat) -> Seq<char> {
    "intrinsic `"@ + name + "` takes "@ + decimal(need) + " arguments, got "@ + decimal(got)
}

/// The last position of `n` in `names`.
pub open spec fn last_position(names: Seq<Seq<char>>, n: Seq<char>) -> Option<nat>
    decreases names.len(),
{
    if names.len() == 0 {
        None
    } else if names.last() == n {
        Some((names.len() - 1) as nat)
    } else {
        last_position(names.drop_last(), n)
    }
}

/// What a call of `n` targets: the program's function of that name (the last
/// declared, as a later declaration replaces an earlier one), else a builtin
/// for a `__…` or `au_…` name, else the kernel import of that name.
pub open spec fn callee_of(n: Seq<char>, funcs: Seq<Seq<char>>) -> Option<Callee<Seq<char>>> {
    match last_position(funcs, n) {
        Some(i) => Some(Callee::Local(i as usize)),
        None => if "__"@.is_prefix_of(n) || "au_"@.is_prefix_of(n) {
            Some(Callee::Builtin(n))
        } else if kernel_import(n) {
            Some(Callee::Kernel(n))
        } else {
            None
        },
    }
}

pub open spec fn is_slot_get(n: Seq<char>) -> bool {
    n == "__slot_get"@ || n == "__ptr_slot_get"@
}

/// The offset of the `i`-th argument of a record constructor (the first, the
/// size, is not stored): 8 bytes per field, truncated to the `i32` of a store.
pub open spec fn field_offset(i: nat) -> i32 {
    ((i - 1) * 8) as i32
}

/// The id the next defined value gets.
pub open spec fn next_value(c: Lctx) -> usize {
    c.values as usize
}

/// `c` after defining one value.
pub open spec fn defined(c: Lctx) -> Lctx {
    Lctx { values: c.values + 1, ..c }
}

/// `c` after defining one value and pushing it.
pub open spec fn pushed(c: Lctx) -> Lctx {
    Lctx { values: c.values + 1, stack: c.stack.push(c.values as usize), ..c }
}

/// `c` without the top `k` stack entries.
pub open spec fn popped(c: Lctx, k: nat) -> Lctx {
    Lctx { stack: c.stack.subrange(0, c.stack.len() - k), ..c }
}

/// The top `k` stack entries, deepest first.
pub open spec fn top(c: Lctx, k: nat) -> Seq<usize> {
    c.stack.subrange(c.stack.len() - k, c.stack.len() as int)
}

pub open spec fn arg_insts(args: Seq<usize>) -> Seq<Clif<Seq<char>>> {
    args.map_values(|a: usize| Clif::<Seq<char>>::Arg(a))
}

/// The stores of a record constructor's fields (arguments after the first)
/// into the allocated `p`.
pub open spec fn field_stores(args: Seq<usize>, p: usize) -> Seq<Clif<Seq<char>>> {
    stores_upto(args, p, (args.len() - 1) as nat)
}

/// The stores of the fields `1..=n`.
pub open spec fn stores_upto(args: Seq<usize>, p: usize, n: nat) -> Seq<Clif<Seq<char>>> {
    Seq::new(n, |j: int| Clif::<Seq<char>>::Store(args[j + 1], p, field_offset((j + 1) as nat)))
}

/// The allocation of a record and the stores of its fields; defines `p`.
pub open spec fn record_insts(args: Seq<usize>, p: usize) -> Seq<Clif<Seq<char>>> {
    seq![Clif::Arg(args[0]), Clif::Call(Callee::Alloc)] + field_stores(args, p)
}

/// The error of the intrinsic `name` called with `k` arguments when it takes `need`.
pub open spec fn arity_error(name: Seq<char>, k: nat, need: nat) -> Option<CodegenError<Seq<char>>> {
    if k < need {
        Some(CodegenError::Arity(arity_message(name, need, k)))
    } else {
        None
    }
}

/// A call in an expression.
pub open spec fn call_step(c: Lctx, n: Seq<char>, k: nat, funcs: Seq<Seq<char>>)
    -> Result<(Seq<Clif<Seq<char>>>, Lctx), CodegenError<Seq<char>>>
{
    if c.stack.len() < k {
        Err(CodegenError::Message(malformed()))
    } else {
        let args = top(c, k);
        let c1 = popped(c, k);
        let x = next_value(c1);
        if is_slot_get(n) {
            match arity_error(n, k, 2) {
                Some(e) => Err(e),
                None => Ok((seq![Clif::Arith(Arith::Add, args[0], args[1]), Clif::Load(x)], pushed(defined(c1)))),
            }
        } else if n == "__record_new"@ || n == "__union_new"@ {
            match arity_error(n, k, if n == "__union_new"@ { 2 } else { 1 }) {
                Some(e) => Err(e),
                None => Ok((record_insts(args, x), pushed(c1))),
            }
        } else {
            match callee_of(n, funcs) {
                Some(f) => Ok((arg_insts(args).push(Clif::Call(f)), pushed(c1))),
                None => Err(CodegenError::Message("Call to unknown function: "@ + n)),
            }
        }
    }
}

/// A tail call, which ends the current block.
pub open spec fn tail_step(c: Lctx, n: Seq<char>, k: nat, funcs: Seq<Seq<char>>)
    -> Result<(Seq<Clif<Seq<char>>>, Lctx), CodegenError<Seq<char>>>
{
    if c.stack.len() < k {
        Err(CodegenError::Message(malformed()))
    } else {
        let args = top(c, k);
        let c1 = Lctx { terminated: true, ..popped(c, k) };
        let x = next_value(c1);
        if is_slot_get(n) {
            match arity_error(n, k, 2) {
                Some(e) => Err(e),
                None => Ok((
                    seq![Clif::Arith(Arith::Add, args[0], args[1]), Clif::Load(x), Clif::Return((x + 1) as usize)],
                    defined(defined(c1)),
                )),
            }
        } else if n == "__record_new"@ {
            match arity_error(n, k, 1) {
                Some(e) => Err(e),
                None => Ok((record_insts(args, x).push(Clif::Return(x)), defined(c1))),
            }
        } else {
            match callee_of(n, funcs) {
                Some(f) => Ok((arg_insts(args).push(Clif::ReturnCall(f)), c1)),
                None => Err(CodegenError::Message("Tail call to unknown function: "@ + n)),
            }
        }
    }
}

/// The comparison an operator makes, if it is one.
pub open spec fn cond_of(b: BinOp) -> Option<Cond> {
    match b {
        BinOp::Lt => Some(Cond::Lt),
        BinOp::Gt => Some(Cond::Gt),
        BinOp::Le => Some(Cond::Le),
        BinOp::Ge => Some(Cond::Ge),
        BinOp::Eq => Some(Cond::Eq),
        BinOp::Ne => Some(Cond::Ne),
        _ => None,
    }
}

pub open spec fn arith_of(b: BinOp) -> Arith {
    match b {
        BinOp::Sub => Arith::Sub,
        BinOp::Mul => Arith::Mul,
        _ => Arith::Add,
    }
}

/// A binary operator: an arithmetic instruction, or a comparison widened to `i64`.
pub open spec fn binary_step(c: Lctx, b: BinOp) -> Result<(Seq<Clif<Seq<char>>>, Lctx), CodegenError<Seq<char>>> {
    if c.stack.len() < 2 {
        Err(CodegenError::Message(malformed()))
    } else {
        let args = top(c, 2);
        let c1 = popped(c, 2);
        let x = next_value(c1);
        match cond_of(b) {
            Some(cond) => Ok((seq![Clif::Compare(cond, args[0], args[1]), Clif::Uextend(x)], pushed(defined(c1)))),
            None => Ok((seq![Clif::Arith(arith_of(b), args[0], args[1])], pushed(c1))),
        }
    }
}

/// A one-operand instruction on the top value.
pub open spec fn unary_step(c: Lctx, i: Clif<Seq<char>>) -> Result<(Seq<Clif<Seq<char>>>, Lctx), CodegenError<Seq<char>>> {
    if c.stack.len() < 1 {
        Err(CodegenError::Message(malformed()))
    } else {
        Ok((seq![i], pushed(popped(c, 1))))
    }
}

/// The branch on a non-zero condition value `cond`: the constant 0, the
/// comparison, the branch; the two values are numbered from `c.values`.
pub open spec fn branch_insts(c: Lctx, cond: usize, t: usize, e: usize) -> Seq<Clif<Seq<char>>> {
    seq![Clif::IConst(0), Clif::Compare(Cond::Ne, cond, next_value(c)), Clif::Brif((c.values + 1) as usize, t, e)]
}

/// A jump to `b` unless the current block already ends in a terminator.
pub open spec fn close_insts(c: Lctx, b: usize) -> Seq<Clif<Seq<char>>> {
    if c.terminated { seq![] } else { seq![Clif::Jump(b)] }
}

/// The innermost open construct.
pub open spec fn top_frame(c: Lctx) -> Option<Frame> {
    if c.frames.len() > 0 { Some(c.frames.last()) } else { None }
}

/// `c` with its innermost frame replaced.
pub open spec fn with_top(c: Lctx, f: Frame) -> Lctx {
    Lctx { frames: c.frames.drop_last().push(f), ..c }
}

/// The instructions one operation of the stream emits, and the state after it.
/// Every operation but those that close a branch needs a current block without
/// a terminator.
pub open spec fn op_step(c: Lctx, op: Op<Seq<char>>, funcs: Seq<Seq<char>>)
    -> Result<(Seq<Clif<Seq<char>>>, Lctx), CodegenError<Seq<char>>>
{
    let closing = op is IfElse || op is IfEnd || op is WhileEnd || op is CaseArmEnd || op is CaseEnd;
    if c.terminated && !closing {
        Err(CodegenError::Message(malformed()))
    } else {
        match op {
            Op::Const(v) => Ok((seq![Clif::IConst(v)], pushed(c))),
            Op::Var(n) => match last_position(c.vars, n) {
                Some(x) => Ok((seq![Clif::UseVar(x as usize)], pushed(c))),
                None => Err(CodegenError::Message(malformed())),
            },
            Op::Call(n, k) => call_step(c, n, k as nat, funcs),
            Op::Binary(b) => binary_step(c, b),
            Op::Not => unary_step(c, Clif::BNot(c.stack.last())),
            Op::Load => unary_step(c, Clif::Load(c.stack.last())),
            Op::Let(n) => if c.stack.len() < 1 {
                Err(CodegenError::Message(malformed()))
            } else {
                let v = c.stack.last();
                let c1 = popped(c, 1);
                match last_position(c.vars, n) {
                    Some(x) => Ok((seq![Clif::DefVar(x as usize, v)], c1)),
                    None => Ok((
                        seq![Clif::DeclareVar, Clif::DefVar(c.vars.len() as usize, v)],
                        Lctx { vars: c.vars.push(n), ..c1 },
                    )),
                }
            },
            Op::Store => if c.stack.len() < 2 {
                Err(CodegenError::Message(malformed()))
            } else {
                let args = top(c, 2);
                Ok((seq![Clif::Store(args[1], args[0], 0)], popped(c, 2)))
            },
            Op::Drop => if c.stack.len() < 1 {
                Err(CodegenError::Message(malformed()))
            } else {
                Ok((seq![], popped(c, 1)))
            },
            Op::Return => if c.stack.len() < 1 {
                Err(CodegenError::Message(malformed()))
            } else {
                Ok((seq![Clif::Return(c.stack.last())], Lctx { terminated: true, ..popped(c, 1) }))
            },
            Op::TailCall(n, k) => tail_step(c, n, k as nat, funcs),
            Op::IfThen => if c.stack.len() < 1 {
                Err(CodegenError::Message(malformed()))
            } else {
                let c1 = popped(c, 1);
                let t = c.blocks as usize;
                let insts = seq![Clif::IConst(0), Clif::Compare(Cond::Ne, c.stack.last(), next_value(c1))]
                    + seq![Clif::CreateBlock, Clif::CreateBlock, Clif::CreateBlock]
                    + seq![Clif::Brif((c1.values + 1) as usize, t, (c.blocks + 1) as usize), Clif::SwitchTo(t)];
                Ok((insts, Lctx {
                    values: c1.values + 2,
                    blocks: c.blocks + 3,
                    frames: c.frames.push(Frame::If { els: (c.blocks + 1) as usize, merge: (c.blocks + 2) as usize, in_else: false }),
                    ..c1
                }))
            },
            Op::IfElse => match top_frame(c) {
                Some(Frame::If { els, merge, in_else }) => if !in_else {
                    Ok((close_insts(c, merge).push(Clif::SwitchTo(els)),
                        Lctx { terminated: false, ..with_top(c, Frame::If { els, merge, in_else: true }) }))
                } else {
                    Err(CodegenError::Message(malformed()))
                },
                _ => Err(CodegenError::Message(malformed())),
            },
            Op::IfEnd => match top_frame(c) {
                Some(Frame::If { els, merge, in_else }) => if in_else {
                    Ok((close_insts(c, merge).push(Clif::SwitchTo(merge)),
                        Lctx { terminated: false, frames: c.frames.drop_last(), ..c }))
                } else {
                    Err(CodegenError::Message(malformed()))
                },
                _ => Err(CodegenError::Message(malformed())),
            },
            Op::WhileHead => {
                let h = c.blocks as usize;
                Ok((seq![Clif::CreateBlock, Clif::CreateBlock, Clif::CreateBlock, Clif::Jump(h), Clif::SwitchTo(h)],
                    Lctx {
                        blocks: c.blocks + 3,
                        frames: c.frames.push(Frame::While {
                            head: h,
                            body: (c.blocks + 1) as usize,
                            exit: (c.blocks + 2) as usize,
                            in_body: false,
                        }),
                        ..c
                    }))
            },
            Op::WhileBody => match top_frame(c) {
                Some(Frame::While { head, body, exit, in_body }) => if c.stack.len() >= 1 && !in_body {
                    let c1 = popped(c, 1);
                    Ok((branch_insts(c1, c.stack.last(), body, exit).push(Clif::SwitchTo(body)),
                        with_top(Lctx { values: c1.values + 2, ..c1 }, Frame::While { head, body, exit, in_body: true })))
                } else {
                    Err(CodegenError::Message(malformed()))
                },
                _ => Err(CodegenError::Message(malformed())),
            },
            Op::WhileEnd => match top_frame(c) {
                Some(Frame::While { head, body, exit, in_body }) => if in_body {
                    Ok((close_insts(c, head).push(Clif::SwitchTo(exit)),
                        Lctx { terminated: false, frames: c.frames.drop_last(), ..c }))
                } else {
                    Err(CodegenError::Message(malformed()))
                },
                _ => Err(CodegenError::Message(malformed())),
            },
            Op::CaseBegin => if c.stack.len() < 1 {
                Err(CodegenError::Message(malformed()))
            } else {
                let c1 = popped(c, 1);
                Ok((seq![Clif::CreateBlock], Lctx {
                    blocks: c.blocks + 1,
                    frames: c.frames.push(Frame::Case { scrut: c.stack.last(), merge: c.blocks as usize, in_arm: false, next: 0 }),
                    ..c1
                }))
            },
            Op::CaseArm(v) => match top_frame(c) {
                Some(Frame::Case { scrut, merge, in_arm, next }) => if !in_arm {
                    let m = c.blocks as usize;
                    let x = next_value(c);
                    Ok((seq![Clif::IConst(v), Clif::Compare(Cond::Eq, scrut, x), Clif::CreateBlock, Clif::CreateBlock,
                            Clif::Brif((c.values + 1) as usize, m, (c.blocks + 1) as usize), Clif::SwitchTo(m)],
                        with_top(Lctx { values: c.values + 2, blocks: c.blocks + 2, ..c },
                            Frame::Case { scrut, merge, in_arm: true, next: (c.blocks + 1) as usize })))
                } else {
                    Err(CodegenError::Message(malformed()))
                },
                _ => Err(CodegenError::Message(malformed())),
            },
            Op::CaseArmEnd => match top_frame(c) {
                Some(Frame::Case { scrut, merge, in_arm, next }) => if in_arm {
                    Ok((close_insts(c, merge).push(Clif::SwitchTo(next)),
                        Lctx { terminated: false, ..with_top(c, Frame::Case { scrut, merge, in_arm: false, next: 0 }) }))
                } else {
                    Err(CodegenError::Message(malformed()))
                },
                _ => Err(CodegenError::Message(malformed())),
            },
            Op::CaseEnd => match top_frame(c) {
                Some(Frame::Case { scrut, merge, in_arm, next }) => if !in_arm {
                    Ok((close_insts(c, merge).push(Clif::SwitchTo(merge)),
                        Lctx { terminated: false, frames: c.frames.drop_last(), ..c }))
                } else {
                    Err(CodegenError::Message(malformed()))
                },
                _ => Err(CodegenError::Message(malformed())),
            },
        }
    }
}

/// The first `n` operations of `ops` lowered from the state `c`.
pub open spec fn ops_steps(c: Lctx, ops: Seq<Op<Seq<char>>>, n: nat, funcs: Seq<Seq<char>>)
    -> Result<(Seq<Clif<Seq<char>>>, Lctx), CodegenError<Seq<char>>>
    decreases n,
{
    if n == 0 {
        Ok((seq![], c))
    } else {
        match ops_steps(c, ops, (n - 1) as nat, funcs) {
            Ok((p, c1)) => match op_step(c1, ops[n - 1], funcs) {
                Ok((q, c2)) => Ok((p + q, c2)),
                Err(e) => Err(e),
            },
            Err(e) => Err(e),
        }
    }
}

/// The binding of the first `n` parameters: each read from the entry block,
/// then a variable declared and assigned it.
pub open spec fn param_bindings(n: nat) -> Seq<Clif<Seq<char>>>
    decreases n,
{
    if n == 0 {
        seq![]
    } else {
        param_bindings((n - 1) as nat) + seq![
            Clif::Param(0, (n - 1) as usize),
            Clif::DeclareVar,
            Clif::DefVar((n - 1) as usize, (n - 1) as usize),
        ]
    }
}

/// The entry block with the function's `n` parameters, each bound to a variable.
pub open spec fn prologue(n: nat) -> Seq<Clif<Seq<char>>> {
    seq![Clif::CreateBlock, Clif::SwitchTo(0), Clif::EntryParams(0)] + param_bindings(n)
}

/// The state after the prologue.
pub open spec fn entry_ctx(params: Seq<Seq<char>>) -> Lctx {
    Lctx { values: params.len(), vars: params, blocks: 1, terminated: false, stack: seq![], frames: seq![] }
}

/// What ends the body: every construct closed, and a `return 0` unless the
/// current block already ends in a terminator.
pub open spec fn epilogue(c: Lctx) -> Result<Seq<Clif<Seq<char>>>, CodegenError<Seq<char>>> {
    if c.frames.len() > 0 {
        Err(CodegenError::Message(malformed()))
    } else if c.terminated {
        Ok(seq![])
    } else {
        Ok(seq![Clif::IConst(0), Clif::Return(next_value(c))])
    }
}

/// The emission plan of a function with parameters `params` whose body decoded
/// to `ops`, in a program whose functions are `funcs`.
pub open spec fn lowered(ops: Seq<Op<Seq<char>>>, params: Seq<Seq<char>>, funcs: Seq<Seq<char>>)
    -> Result<Seq<Clif<Seq<char>>>, CodegenError<Seq<char>>>
{
    match ops_steps(entry_ctx(params), ops, ops.len(), funcs) {
        Ok((p, c)) => match epilogue(c) {
            Ok(q) => Ok(prologue(params.len()) + p + q),
            Err(e) => Err(e),
        },
        Err(e) => Err(e),
    }
}

} // verus!

verus! {

proof fn lemma_clifv_push(v: Seq<Clif<String>>, i: Clif<String>)
    ensures
        clifv(v.push(i)) == clifv(v).push(i@),
{
    assert(clifv(v.push(i)) =~= clifv(v).push(i@));
}

fn same(a: &str, b: &str) -> (r: bool)
    ensures
        r == (a@ == b@),
{
    chars_eq(&chars_of(a), &chars_of(b))
}

fn malformed_error() -> (e: CodegenError<String>)
    ensures
        e@ == CodegenError::<Seq<char>>::Message(malformed()),
{
    CodegenError::Message(String::from_str("malformed operation stream"))
}

/// The last position of `n` in `names`.
fn last_position_of(names: &Vec<String>, n: &str) -> (r: Option<usize>)
    ensures
        match last_position(strings(names@), n@) {
            Some(i) => r == Some(i as usize) && i < names@.len(),
            None => r is None,
        },
{
    let target = chars_of(n);
    let mut i: usize = names.len();
    assert(strings(names@).subrange(0, i as int) =~= strings(names@));
    while i > 0
        invariant
            i <= names@.len(),
            target@ == n@,
            last_position(strings(names@), n@) == last_position(strings(names@).subrange(0, i as int), n@),
        decreases i,
    {
        let ghost s = strings(names@).subrange(0, i as int);
        assert(s.drop_last() =~= strings(names@).subrange(0, i - 1));
        assert(s.last() == names@[i - 1]@);
        let c = chars_of(names[i - 1].as_str());
        if chars_eq(&c, &target) {
            return Some(i - 1);
        }
        i = i - 1;
    }
    None
}

fn resolve_callee(n: &str, funcs: &Vec<String>) -> (r: Option<Callee<String>>)
    ensures
        match callee_of(n@, strings(funcs@)) {
            Some(f) => r matches Some(g) && g@ == f,
            None => r is None,
        },
{
    match last_position_of(funcs, n) {
        Some(i) => Some(Callee::Local(i)),
        None => if starts_with(n, "__") || starts_with(n, "au_") {
            Some(Callee::Builtin(String::from_str(n)))
        } else if is_kernel_import(n) {
            Some(Callee::Kernel(String::from_str(n)))
        } else {
            None
        },
    }
}

fn arity_check(name: &str, k: u32, need: u32) -> (r: Option<CodegenError<String>>)
    ensures
        match arity_error(name@, k as nat, need as nat) {
            Some(e) => r matches Some(x) && x@ == e,
            None => r is None,
        },
{
    if k < need {
        let mut s = String::from_str("intrinsic `");
        s.append(name);
        s.append("` takes ");
        s.append(string_from_chars(decimal_chars(need as u64).as_slice()).as_str());
        s.append(" arguments, got ");
        s.append(string_from_chars(decimal_chars(k as u64).as_slice()).as_str());
        assert(s@ =~= arity_message(name@, need as nat, k as nat));
        Some(CodegenError::Arity(s))
    } else {
        None
    }
}

fn prefixed_error(prefix: &str, n: &str) -> (e: CodegenError<String>)
    ensures
        e@ == CodegenError::<Seq<char>>::Message(prefix@ + n@),
{
    let mut m = String::from_str(prefix);
    m.append(n);
    CodegenError::Message(m)
}

fn binop_cond(b: BinOp) -> (r: Option<Cond>)
    ensures
        r == cond_of(b),
{
    match b {
        BinOp::Lt => Some(Cond::Lt),
        BinOp::Gt => Some(Cond::Gt),
        BinOp::Le => Some(Cond::Le),
        BinOp::Ge => Some(Cond::Ge),
        BinOp::Eq => Some(Cond::Eq),
        BinOp::Ne => Some(Cond::Ne),
        _ => None,
    }
}

fn binop_arith(b: BinOp) -> (r: Arith)
    ensures
        r == arith_of(b),
{
    match b {
        BinOp::Sub => Arith::Sub,
        BinOp::Mul => Arith::Mul,
        _ => Arith::Add,
    }
}

/// The lowering in progress: the plan so far and the state of [`Lctx`].
struct Lowering {
    plan: Vec<Clif<String>>,
    values: usize,
    vars: Vec<String>,
    blocks: usize,
    terminated: bool,
    stack: Vec<usize>,
    frames: Vec<Frame>,
}

impl Lowering {
    spec fn ctx(self) -> Lctx {
        Lctx {
            values: self.values as nat,
            vars: strings(self.vars@),
            blocks: self.blocks as nat,
            terminated: self.terminated,
            stack: self.stack@,
            frames: self.frames@,
        }
    }

    /// Every value and block comes from an instruction of the plan, so the
    /// counters stay below `usize::MAX`.
    spec fn room(self) -> bool {
        self.values + self.blocks <= self.plan@.len()
    }

    fn emit(&mut self, i: Clif<String>)
        ensures
            clifv(final(self).plan@) == clifv(old(self).plan@).push(i@),
            final(self).plan@.len() == old(self).plan@.len() + 1,
            final(self).ctx() == old(self).ctx(),
            final(self).values == old(self).values,
            final(self).blocks == old(self).blocks,
    {
        proof { lemma_clifv_push(self.plan@, i); }
        self.plan.push(i);
    }

    fn define(&mut self, i: Clif<String>) -> (x: usize)
        requires
            old(self).room(),
        ensures
            x == old(self).values,
            clifv(final(self).plan@) == clifv(old(self).plan@).push(i@),
            final(self).ctx() == defined(old(self).ctx()),
            final(self).room(),
    {
        let x = self.values;
        self.emit(i);
        let _n = self.plan.len();
        self.values = x + 1;
        x
    }

    fn create_block(&mut self) -> (b: usize)
        requires
            old(self).room(),
        ensures
            b == old(self).blocks,
            clifv(final(self).plan@) == clifv(old(self).plan@).push(Clif::CreateBlock),
            final(self).ctx() == (Lctx { blocks: old(self).ctx().blocks + 1, ..old(self).ctx() }),
            final(self).room(),
    {
        let b = self.blocks;
        self.emit(Clif::CreateBlock);
        let _n = self.plan.len();
        self.blocks = b + 1;
        b
    }

    fn pop_args(&mut self, k: usize) -> (args: Vec<usize>)
        requires
            k <= old(self).stack@.len(),
        ensures
            args@ == top(old(self).ctx(), k as nat),
            final(self).ctx() == popped(old(self).ctx(), k as nat),
            final(self).plan@ == old(self).plan@,
    {
        let at = self.stack.len() - k;
        self.stack.split_off(at)
    }

    fn push_value(&mut self, x: usize)
        ensures
            final(self).ctx() == (Lctx { stack: old(self).ctx().stack.push(x), ..old(self).ctx() }),
            final(self).plan@ == old(self).plan@,
    {
        self.stack.push(x);
    }

    /// The stores of a record constructor's fields after its allocation; see
    /// [`record_insts`].
    fn emit_record(&mut self, args: &Vec<usize>) -> (p: usize)
        requires
            old(self).room(),
            args@.len() >= 1,
            args@.len() <= u32::MAX,
        ensures
            p == old(self).values,
            clifv(final(self).plan@) == clifv(old(self).plan@) + record_insts(args@, p),
            final(self).ctx() == defined(old(self).ctx()),
            final(self).room(),
    {
        let ghost base = clifv(self.plan@);
        self.emit(Clif::Arg(args[0]));
        let p = self.define(Clif::Call(Callee::Alloc));
        let ghost c1 = self.ctx();
        let mut i: usize = 1;
        while i < args.len()
            invariant
                1 <= i <= args@.len() <= u32::MAX,
                self.room(),
                self.ctx() == c1,
                clifv(self.plan@) == base + seq![Clif::<Seq<char>>::Arg(args@[0]), Clif::Call(Callee::Alloc)]
                    + stores_upto(args@, p, (i - 1) as nat),
            decreases args.len() - i,
        {
            let wide: u64 = (i as u64 - 1) * 8;
            let off: i32 = wide as i32;
            assert(off == field_offset(i as nat));
            self.emit(Clif::Store(args[i], p, off));
            proof {
                assert(stores_upto(args@, p, i as nat) =~= stores_upto(args@, p, (i - 1) as nat).push(Clif::Store(args@[i as int], p, off)));
            }
            i = i + 1;
        }
        p
    }

    /// The arguments of a call, one `Arg` each.
    fn emit_args(&mut self, args: &Vec<usize>)
        ensures
            clifv(final(self).plan@) == clifv(old(self).plan@) + arg_insts(args@),
            final(self).plan@.len() == old(self).plan@.len() + args@.len(),
            final(self).ctx() == old(self).ctx(),
            final(self).values == old(self).values,
            final(self).blocks == old(self).blocks,
    {
        let ghost base = clifv(self.plan@);
        let mut i: usize = 0;
        while i < args.len()
            invariant
                i <= args@.len(),
                self.ctx() == old(self).ctx(),
                self.values == old(self).values,
                self.blocks == old(self).blocks,
                self.plan@.len() == old(self).plan@.len() + i,
                clifv(self.plan@) == base + arg_insts(args@.subrange(0, i as int)),
            decreases args.len() - i,
        {
            self.emit(Clif::Arg(args[i]));
            proof {
                assert(arg_insts(args@.subrange(0, i + 1)) =~= arg_insts(args@.subrange(0, i as int)).push(Clif::Arg(args@[i as int])));
            }
            i = i + 1;
        }
        assert(args@.subrange(0, args@.len() as int) =~= args@);
    }

    fn pop1(&mut self) -> (v: usize)
        requires
            old(self).stack@.len() >= 1,
        ensures
            v == old(self).stack@.last(),
            final(self).ctx() == popped(old(self).ctx(), 1),
            final(self).plan@ == old(self).plan@,
    {
        let v = self.stack.pop();
        v.unwrap()
    }

    /// Replaces the innermost frame.
    fn set_top(&mut self, f: Frame)
        requires
            old(self).frames@.len() > 0,
        ensures
            final(self).ctx() == with_top(old(self).ctx(), f),
            final(self).plan@ == old(self).plan@,
    {
        let last = self.frames.len() - 1;
        self.frames.set(last, f);
        assert(self.frames@ =~= old(self).frames@.drop_last().push(f));
    }

    /// A jump to `b` unless the current block already ends in a terminator.
    fn close(&mut self, b: usize)
        ensures
            clifv(final(self).plan@) == clifv(old(self).plan@) + close_insts(old(self).ctx(), b),
            final(self).plan@.len() >= old(self).plan@.len(),
            final(self).ctx() == old(self).ctx(),
    {
        if !self.terminated {
            self.emit(Clif::Jump(b));
        } else {
            assert(clifv(self.plan@) + seq![] =~= clifv(self.plan@));
        }
    }

    fn lower_call(&mut self, n: &str, k: u32, funcs: &Vec<String>) -> (r: Result<(), CodegenError<String>>)
        requires
            old(self).room(),
        ensures
            final(self).room(),
            match call_step(old(self).ctx(), n@, k as nat, strings(funcs@)) {
                Ok((q, c2)) => r is Ok && clifv(final(self).plan@) == clifv(old(self).plan@) + q && final(self).ctx() == c2,
                Err(e) => r matches Err(x) && x@ == e,
            },
    {
        let ghost c = self.ctx();
        let ghost base = clifv(self.plan@);
        if self.stack.len() < k as usize {
            return Err(malformed_error());
        }
        let args = self.pop_args(k as usize);
        if same(n, "__slot_get") || same(n, "__ptr_slot_get") {
            if let Some(e) = arity_check(n, k, 2) {
                return Err(e);
            }
            let x = self.define(Clif::Arith(Arith::Add, args[0], args[1]));
            let y = self.define(Clif::Load(x));
            self.push_value(y);
            assert(clifv(self.plan@) =~= base + seq![Clif::Arith(Arith::Add, args@[0], args@[1]), Clif::Load(x)]);
            Ok(())
        } else if same(n, "__record_new") || same(n, "__union_new") {
            let need: u32 = if same(n, "__union_new") { 2 } else { 1 };
            if let Some(e) = arity_check(n, k, need) {
                return Err(e);
            }
            let p = self.emit_record(&args);
            self.push_value(p);
            Ok(())
        } else {
            match resolve_callee(n, funcs) {
                Some(f) => {
                    self.emit_args(&args);
                    let x = self.define(Clif::Call(f));
                    self.push_value(x);
                    assert(clifv(self.plan@) =~= base + arg_insts(args@).push(Clif::Call(f@)));
                    Ok(())
                },
                None => Err(prefixed_error("Call to unknown function: ", n)),
            }
        }
    }

    fn lower_tail(&mut self, n: &str, k: u32, funcs: &Vec<String>) -> (r: Result<(), CodegenError<String>>)
        requires
            old(self).room(),
        ensures
            final(self).room(),
            match tail_step(old(self).ctx(), n@, k as nat, strings(funcs@)) {
                Ok((q, c2)) => r is Ok && clifv(final(self).plan@) == clifv(old(self).plan@) + q && final(self).ctx() == c2,
                Err(e) => r matches Err(x) && x@ == e,
            },
    {
        let ghost base = clifv(self.plan@);
        if self.stack.len() < k as usize {
            return Err(malformed_error());
        }
        let args = self.pop_args(k as usize);
        self.terminated = true;
        if same(n, "__slot_get") || same(n, "__ptr_slot_get") {
            if let Some(e) = arity_check(n, k, 2) {
                return Err(e);
            }
            let x = self.define(Clif::Arith(Arith::Add, args[0], args[1]));
            let y = self.define(Clif::Load(x));
            self.emit(Clif::Return(y));
            assert(clifv(self.plan@) =~= base + seq![Clif::Arith(Arith::Add, args@[0], args@[1]), Clif::Load(x), Clif::Return(y)]);
            Ok(())
        } else if same(n, "__record_new") {
            if let Some(e) = arity_check(n, k, 1) {
                return Err(e);
            }
            let p = self.emit_record(&args);
            self.emit(Clif::Return(p));
            assert(clifv(self.plan@) =~= base + record_insts(args@, p).push(Clif::Return(p)));
            Ok(())
        } else {
            match resolve_callee(n, funcs) {
                Some(f) => {
                    self.emit_args(&args);
                    self.emit(Clif::ReturnCall(f));
                    assert(clifv(self.plan@) =~= base + arg_insts(args@).push(Clif::ReturnCall(f@)));
                    Ok(())
                },
                None => Err(prefixed_error("Tail call to unknown function: ", n)),
            }
        }
    }

    fn lower_binary(&mut self, b: BinOp) -> (r: Result<(), CodegenError<String>>)
        requires
            old(self).room(),
        ensures
            final(self).room(),
            match binary_step(old(self).ctx(), b) {
                Ok((q, c2)) => r is Ok && clifv(final(self).plan@) == clifv(old(self).plan@) + q && final(self).ctx() == c2,
                Err(e) => r matches Err(x) && x@ == e,
            },
    {
        let ghost base = clifv(self.plan@);
        if self.stack.len() < 2 {
            return Err(malformed_error());
        }
        let args = self.pop_args(2);
        match binop_cond(b) {
            Some(cond) => {
                let x = self.define(Clif::Compare(cond, args[0], args[1]));
                let y = self.define(Clif::Uextend(x));
                self.push_value(y);
                assert(clifv(self.plan@) =~= base + seq![Clif::Compare(cond, args@[0], args@[1]), Clif::Uextend(x)]);
            },
            None => {
                let x = self.define(Clif::Arith(binop_arith(b), args[0], args[1]));
                self.push_value(x);
                assert(clifv(self.plan@) =~= base + seq![Clif::Arith(arith_of(b), args@[0], args@[1])]);
            },
        }
        Ok(())
    }

    fn step(&mut self, op: &Op<String>, funcs: &Vec<String>) -> (r: Result<(), CodegenError<String>>)
        requires
            old(self).room(),
        ensures
            final(self).room(),
            match op_step(old(self).ctx(), op@, strings(funcs@)) {
                Ok((q, c2)) => r is Ok && clifv(final(self).plan@) == clifv(old(self).plan@) + q && final(self).ctx() == c2,
                Err(e) => r matches Err(x) && x@ == e,
            },
    {
        let ghost base = clifv(self.plan@);
        let closing = match op {
            Op::IfElse => true,
            Op::IfEnd => true,
            Op::WhileEnd => true,
            Op::CaseArmEnd => true,
            Op::CaseEnd => true,
            _ => false,
        };
        if self.terminated && !closing {
            return Err(malformed_error());
        }
        match op {
            Op::Const(v) => {
                let x = self.define(Clif::IConst(*v));
                self.push_value(x);
                assert(clifv(self.plan@) =~= base + seq![Clif::IConst(*v)]);
                Ok(())
            },
            Op::Var(n) => match last_position_of(&self.vars, n.as_str()) {
                Some(x) => {
                    let y = self.define(Clif::UseVar(x));
                    self.push_value(y);
                    assert(clifv(self.plan@) =~= base + seq![Clif::UseVar(x)]);
                    Ok(())
                },
                None => Err(malformed_error()),
            },
            Op::Call(n, k) => self.lower_call(n.as_str(), *k, funcs),
            Op::Binary(b) => self.lower_binary(*b),
            Op::Not => {
                if self.stack.len() < 1 {
                    return Err(malformed_error());
                }
                let a = self.pop1();
                let x = self.define(Clif::BNot(a));
                self.push_value(x);
                assert(clifv(self.plan@) =~= base + seq![Clif::BNot(a)]);
                Ok(())
            },
            Op::Load => {
                if self.stack.len() < 1 {
                    return Err(malformed_error());
                }
                let a = self.pop1();
                let x = self.define(Clif::Load(a));
                self.push_value(x);
                assert(clifv(self.plan@) =~= base + seq![Clif::Load(a)]);
                Ok(())
            },
            Op::Let(n) => {
                if self.stack.len() < 1 {
                    return Err(malformed_error());
                }
                let v = self.pop1();
                match last_position_of(&self.vars, n.as_str()) {
                    Some(x) => {
                        self.emit(Clif::DefVar(x, v));
                        assert(clifv(self.plan@) =~= base + seq![Clif::DefVar(x, v)]);
                    },
                    None => {
                        let id = self.vars.len();
                        self.emit(Clif::DeclareVar);
                        self.emit(Clif::DefVar(id, v));
                        let ghost before = self.vars@;
                        let name = n.clone();
                        self.vars.push(name);
                        proof {
                            assert(strings(self.vars@) =~= strings(before).push(n@));
                        }
                        assert(clifv(self.plan@) =~= base + seq![Clif::DeclareVar, Clif::DefVar(id, v)]);
                    },
                }
                Ok(())
            },
            Op::Store => {
                if self.stack.len() < 2 {
                    return Err(malformed_error());
                }
                let args = self.pop_args(2);
                self.emit(Clif::Store(args[1], args[0], 0));
                assert(clifv(self.plan@) =~= base + seq![Clif::Store(args@[1], args@[0], 0)]);
                Ok(())
            },
            Op::Drop => {
                if self.stack.len() < 1 {
                    return Err(malformed_error());
                }
                let _ = self.pop1();
                assert(clifv(self.plan@) =~= base + seq![]);
                Ok(())
            },
            Op::Return => {
                if self.stack.len() < 1 {
                    return Err(malformed_error());
                }
                let v = self.pop1();
                self.emit(Clif::Return(v));
                self.terminated = true;
                assert(clifv(self.plan@) =~= base + seq![Clif::Return(v)]);
                Ok(())
            },
            Op::TailCall(n, k) => self.lower_tail(n.as_str(), *k, funcs),
            _ => self.step_control(op),
        }
    }

    fn step_control(&mut self, op: &Op<String>) -> (r: Result<(), CodegenError<String>>)
        requires
            old(self).room(),
            !old(self).terminated || op is IfElse || op is IfEnd || op is WhileEnd || op is CaseArmEnd || op is CaseEnd,
            op is IfThen || op is IfElse || op is IfEnd || op is WhileHead || op is WhileBody || op is WhileEnd
                || op is CaseBegin || op is CaseArm || op is CaseArmEnd || op is CaseEnd,
        ensures
            final(self).room(),
            match op_step(old(self).ctx(), op@, seq![]) {
                Ok((q, c2)) => r is Ok && clifv(final(self).plan@) == clifv(old(self).plan@) + q && final(self).ctx() == c2,
                Err(e) => r matches Err(x) && x@ == e,
            },
    {
        let ghost base = clifv(self.plan@);
        match op {
            Op::IfThen => {
                if self.stack.len() < 1 {
                    return Err(malformed_error());
                }
                let cond = self.pop1();
                let z = self.define(Clif::IConst(0));
                let cb = self.define(Clif::Compare(Cond::Ne, cond, z));
                let t = self.create_block();
                let e = self.create_block();
                let m = self.create_block();
                self.emit(Clif::Brif(cb, t, e));
                self.emit(Clif::SwitchTo(t));
                self.frames.push(Frame::If { els: e, merge: m, in_else: false });
                assert(clifv(self.plan@) =~= base + (seq![Clif::IConst(0), Clif::Compare(Cond::Ne, cond, z)]
                    + seq![Clif::CreateBlock, Clif::CreateBlock, Clif::CreateBlock]
                    + seq![Clif::Brif(cb, t, e), Clif::SwitchTo(t)]));
                Ok(())
            },
            Op::IfElse => {
                if self.frames.len() == 0 {
                    return Err(malformed_error());
                }
                match self.frames[self.frames.len() - 1] {
                    Frame::If { els, merge, in_else } => {
                        if in_else {
                            return Err(malformed_error());
                        }
                        self.close(merge);
                        self.emit(Clif::SwitchTo(els));
                        self.set_top(Frame::If { els, merge, in_else: true });
                        self.terminated = false;
                        assert(clifv(self.plan@) =~= base + close_insts(old(self).ctx(), merge).push(Clif::SwitchTo(els)));
                        Ok(())
                    },
                    _ => Err(malformed_error()),
                }
            },
            Op::IfEnd => {
                if self.frames.len() == 0 {
                    return Err(malformed_error());
                }
                match self.frames[self.frames.len() - 1] {
                    Frame::If { els, merge, in_else } => {
                        if !in_else {
                            return Err(malformed_error());
                        }
                        self.close(merge);
                        self.emit(Clif::SwitchTo(merge));
                        let _ = self.frames.pop();
                        self.terminated = false;
                        assert(clifv(self.plan@) =~= base + close_insts(old(self).ctx(), merge).push(Clif::SwitchTo(merge)));
                        Ok(())
                    },
                    _ => Err(malformed_error()),
                }
            },
            Op::WhileHead => {
                let h = self.create_block();
                let b = self.create_block();
                let x = self.create_block();
                self.emit(Clif::Jump(h));
                self.emit(Clif::SwitchTo(h));
                self.frames.push(Frame::While { head: h, body: b, exit: x, in_body: false });
                assert(clifv(self.plan@) =~= base + seq![Clif::CreateBlock, Clif::CreateBlock, Clif::CreateBlock, Clif::Jump(h), Clif::SwitchTo(h)]);
                Ok(())
            },
            Op::WhileBody => {
                if self.frames.len() == 0 {
                    return Err(malformed_error());
                }
                match self.frames[self.frames.len() - 1] {
                    Frame::While { head, body, exit, in_body } => {
                        if self.stack.len() < 1 || in_body {
                            return Err(malformed_error());
                        }
                        let ghost c1 = popped(old(self).ctx(), 1);
                        let cond = self.pop1();
                        let z = self.define(Clif::IConst(0));
                        let cb = self.define(Clif::Compare(Cond::Ne, cond, z));
                        self.emit(Clif::Brif(cb, body, exit));
                        self.emit(Clif::SwitchTo(body));
                        self.set_top(Frame::While { head, body, exit, in_body: true });
                        assert(clifv(self.plan@) =~= base + branch_insts(c1, cond, body, exit).push(Clif::SwitchTo(body)));
                        Ok(())
                    },
                    _ => Err(malformed_error()),
                }
            },
            Op::WhileEnd => {
                if self.frames.len() == 0 {
                    return Err(malformed_error());
                }
                match self.frames[self.frames.len() - 1] {
                    Frame::While { head, body, exit, in_body } => {
                        if !in_body {
                            return Err(malformed_error());
                        }
                        self.close(head);
                        self.emit(Clif::SwitchTo(exit));
                        let _ = self.frames.pop();
                        self.terminated = false;
                        assert(clifv(self.plan@) =~= base + close_insts(old(self).ctx(), head).push(Clif::SwitchTo(exit)));
                        Ok(())
                    },
                    _ => Err(malformed_error()),
                }
            },
            Op::CaseBegin => {
                if self.stack.len() < 1 {
                    return Err(malformed_error());
                }
                let s = self.pop1();
                let m = self.create_block();
                self.frames.push(Frame::Case { scrut: s, merge: m, in_arm: false, next: 0 });
                assert(clifv(self.plan@) =~= base + seq![Clif::CreateBlock]);
                Ok(())
            },
            Op::CaseArm(v) => {
                if self.frames.len() == 0 {
                    return Err(malformed_error());
                }
                match self.frames[self.frames.len() - 1] {
                    Frame::Case { scrut, merge, in_arm, next } => {
                        if in_arm {
                            return Err(malformed_error());
                        }
                        let x = self.define(Clif::IConst(*v));
                        let y = self.define(Clif::Compare(Cond::Eq, scrut, x));
                        let mt = self.create_block();
                        let nx = self.create_block();
                        self.emit(Clif::Brif(y, mt, nx));
                        self.emit(Clif::SwitchTo(mt));
                        self.set_top(Frame::Case { scrut, merge, in_arm: true, next: nx });
                        assert(clifv(self.plan@) =~= base + seq![Clif::IConst(*v), Clif::Compare(Cond::Eq, scrut, x),
                            Clif::CreateBlock, Clif::CreateBlock, Clif::Brif(y, mt, nx), Clif::SwitchTo(mt)]);
                        Ok(())
                    },
                    _ => Err(malformed_error()),
                }
            },
            Op::CaseArmEnd => {
                if self.frames.len() == 0 {
                    return Err(malformed_error());
                }
                match self.frames[self.frames.len() - 1] {
                    Frame::Case { scrut, merge, in_arm, next } => {
                        if !in_arm {
                            return Err(malformed_error());
                        }
                        self.close(merge);
                        self.emit(Clif::SwitchTo(next));
                        self.set_top(Frame::Case { scrut, merge, in_arm: false, next: 0 });
                        self.terminated = false;
                        assert(clifv(self.plan@) =~= base + close_insts(old(self).ctx(), merge).push(Clif::SwitchTo(next)));
                        Ok(())
                    },
                    _ => Err(malformed_error()),
                }
            },
            _ => {
                if self.frames.len() == 0 {
                    return Err(malformed_error());
                }
                match self.frames[self.frames.len() - 1] {
                    Frame::Case { scrut, merge, in_arm, next } => {
                        if in_arm {
                            return Err(malformed_error());
                        }
                        self.close(merge);
                        self.emit(Clif::SwitchTo(merge));
                        let _ = self.frames.pop();
                        self.terminated = false;
                        assert(clifv(self.plan@) =~= base + close_insts(old(self).ctx(), merge).push(Clif::SwitchTo(merge)));
                        Ok(())
                    },
                    _ => Err(malformed_error()),
                }
            },
        }
    }
}

} // verus!

verus! {

proof fn lemma_steps_err(c: Lctx, ops: Seq<Op<Seq<char>>>, n: nat, m: nat, funcs: Seq<Seq<char>>)
    requires
        n <= m,
        ops_steps(c, ops, n, funcs) is Err,
    ensures
        ops_steps(c, ops, m, funcs) == ops_steps(c, ops, n, funcs),
    decreases m,
{
    if m > n {
        lemma_steps_err(c, ops, n, (m - 1) as nat, funcs);
    }
}

/// Lowers the body `ops` of a function with parameters `params`, in a program
/// whose functions are `funcs`, to the emission plan [`lowered`] describes.
pub fn lower_function(ops: &Vec<Op<String>>, params: &Vec<String>, funcs: &Vec<String>)
    -> (r: Result<Vec<Clif<String>>, CodegenError<String>>)
    ensures
        match lowered(opsv(ops@), strings(params@), strings(funcs@)) {
            Ok(p) => r matches Ok(v) && clifv(v@) == p,
            Err(e) => r matches Err(x) && x@ == e,
        },
        r matches Ok(v) ==> plan_ok(clifv(v@), params@.len(), funcs@.len()),
{
    let mut l = Lowering {
        plan: Vec::new(),
        values: 0,
        vars: Vec::new(),
        blocks: 0,
        terminated: false,
        stack: Vec::new(),
        frames: Vec::new(),
    };
    let entry = l.create_block();
    l.emit(Clif::SwitchTo(entry));
    l.emit(Clif::EntryParams(entry));
    proof {
        assert(strings(l.vars@) =~= strings(params@).take(0));
        assert(l.stack@ =~= seq![]);
        assert(l.frames@ =~= seq![]);
        assert(clifv(l.plan@) =~= prologue(0));
    }
    let mut i: usize = 0;
    while i < params.len()
        invariant
            i <= params@.len(),
            entry == 0,
            l.room(),
            clifv(l.plan@) == prologue(i as nat),
            l.ctx() == (Lctx {
                values: i as nat,
                vars: strings(params@).take(i as int),
                blocks: 1,
                terminated: false,
                stack: seq![],
                frames: seq![],
            }),
        decreases params.len() - i,
    {
        let x = l.define(Clif::Param(entry, i));
        l.emit(Clif::DeclareVar);
        l.emit(Clif::DefVar(i, x));
        let ghost before = l.vars@;
        let name = params[i].clone();
        l.vars.push(name);
        proof {
            assert(strings(l.vars@) =~= strings(before).push(params@[i as int]@));
            assert(strings(params@).take(i + 1) =~= strings(params@).take(i as int).push(params@[i as int]@));
            assert(param_bindings((i + 1) as nat) == param_bindings(i as nat) + seq![
                Clif::<Seq<char>>::Param(0, i),
                Clif::<Seq<char>>::DeclareVar,
                Clif::<Seq<char>>::DefVar(i, i),
            ]);
            assert(clifv(l.plan@) =~= prologue((i + 1) as nat));
        }
        i = i + 1;
    }
    proof { assert(strings(params@).take(params@.len() as int) =~= strings(params@)); }
    let ghost c0 = l.ctx();
    let ghost pro = clifv(l.plan@);
    let ghost fs = strings(funcs@);
    let ghost os = opsv(ops@);
    assert(c0 == entry_ctx(strings(params@)));
    let ghost mut p: Seq<Clif<Seq<char>>> = seq![];
    let mut k: usize = 0;
    while k < ops.len()
        invariant
            k <= ops@.len(),
            os == opsv(ops@),
            c0 == entry_ctx(strings(params@)),
            pro == prologue(params@.len() as nat),
            fs == strings(funcs@),
            l.room(),
            ops_steps(c0, os, k as nat, fs) == Ok::<(Seq<Clif<Seq<char>>>, Lctx), CodegenError<Seq<char>>>((p, l.ctx())),
            clifv(l.plan@) == pro + p,
        decreases ops.len() - k,
    {
        assert(os[k as int] == ops@[k as int]@);
        let ghost st = op_step(l.ctx(), os[k as int], fs);
        assert(ops_steps(c0, os, (k + 1) as nat, fs) == (match st {
            Ok((q, c2)) => Ok((p + q, c2)),
            Err(e) => Err(e),
        }));
        match l.step(&ops[k], funcs) {
            Ok(()) => {
                proof {
                    let q = st->Ok_0.0;
                    assert(pro + (p + q) =~= (pro + p) + q);
                    p = p + q;
                }
            },
            Err(e) => {
                proof { lemma_steps_err(c0, os, (k + 1) as nat, os.len(), fs); }
                return Err(e);
            },
        }
        k = k + 1;
    }
    assert(os.len() == k);
    if l.frames.len() > 0 {
        return Err(malformed_error());
    }
    if !l.terminated {
        let z = l.define(Clif::IConst(0));
        l.emit(Clif::Return(z));
        assert(clifv(l.plan@) =~= prologue(params@.len() as nat) + p + seq![Clif::IConst(0), Clif::Return(z)]);
    } else {
        assert(clifv(l.plan@) =~= prologue(params@.len() as nat) + p + seq![]);
    }
    let _n = l.plan.len();
    proof {
        law_lowered_plans_are_accepted(os, strings(params@), fs);
    }
    Ok(l.plan)
}

} // verus!

verus! {

/// The emission plan of one function of a program.
pub open spec fn function_plan(h: crate::cps_decode::HeaderView, funcs: Seq<Seq<char>>)
    -> Result<Seq<Clif<Seq<char>>>, CodegenError<Seq<char>>>
{
    match body_ops(h.body, h.params, funcs) {
        Ok(ops) => lowered(ops, h.params, funcs),
        Err(m) => Err(CodegenError::Message(m)),
    }
}

/// Decodes the body of the function `header` of a program whose functions are
/// `funcs`, and lowers it; a decoding error is reported as a message.
pub fn plan_function<'a>(header: &FuncHeader<'a>, funcs: &Vec<String>) -> (r: Result<Vec<Clif<String>>, CodegenError<String>>)
    ensures
        match function_plan(header@, strings(funcs@)) {
            Ok(p) => r matches Ok(v) && clifv(v@) == p,
            Err(e) => r matches Err(x) && x@ == e,
        },
        r matches Ok(v) ==> plan_ok(clifv(v@), header.params@.len(), funcs@.len()),
{
    match decode_body(header.body, &header.params, funcs) {
        Ok(ops) => lower_function(&ops, &header.params, funcs),
        Err(m) => Err(CodegenError::Message(m)),
    }
}

} // verus!

verus! {

// ---------------------------------------------------------------------------
// What a plan does to the function being built, and when the builder accepts it.

/// Where a block stands while a plan is replayed.
pub enum BlockState {
    /// Created; nothing was emitted into it yet.
    Pending,
    /// The insertion point, not yet ended by a terminator.
    Open,
    /// Ended by its terminator.
    Filled,
}

/// The builder's state as a plan sees it.
pub struct PlanState {
    pub values: nat,
    pub vars: nat,
    pub status: Seq<BlockState>,
    pub current: Option<nat>,
    pub params_block: Option<nat>,
}

pub open spec fn initial_state() -> PlanState {
    PlanState { values: 0, vars: 0, status: seq![], current: None, params_block: None }
}

/// Whether an instruction can be appended: the insertion point is a block
/// without a terminator.
pub open spec fn emitting(s: PlanState) -> bool {
    s.current matches Some(b) && b < s.status.len() && s.status[b as int] == BlockState::Open
}

pub open spec fn with_value(s: PlanState) -> PlanState {
    PlanState { values: s.values + 1, ..s }
}

/// The insertion point ended by a terminator.
pub open spec fn filled(s: PlanState) -> PlanState {
    PlanState { status: s.status.update(s.current->Some_0 as int, BlockState::Filled), ..s }
}

pub open spec fn callee_ok(f: Callee<Seq<char>>, nfuncs: nat) -> bool {
    match f {
        Callee::Local(i) => i < nfuncs,
        _ => true,
    }
}

/// One operation of a plan for a function of `nparams` parameters in a program
/// of `nfuncs` functions; `None` when the builder would reject it: an operand
/// that is not yet defined, an instruction without an open insertion point, a
/// switch to a block that was already entered or away from one without its
/// terminator.
pub open spec fn plan_step(s: PlanState, i: Clif<Seq<char>>, nparams: nat, nfuncs: nat) -> Option<PlanState> {
    match i {
        Clif::CreateBlock => Some(PlanState { status: s.status.push(BlockState::Pending), ..s }),
        Clif::SwitchTo(b) => if b < s.status.len() && s.status[b as int] == BlockState::Pending
            && (s.current matches Some(c) ==> c < s.status.len() && s.status[c as int] == BlockState::Filled) {
            Some(PlanState { status: s.status.update(b as int, BlockState::Open), current: Some(b as nat), ..s })
        } else {
            None
        },
        Clif::EntryParams(b) => if emitting(s) && s.current == Some(b as nat) && s.params_block is None {
            Some(PlanState { params_block: Some(b as nat), ..s })
        } else {
            None
        },
        Clif::Param(b, k) => if s.params_block == Some(b as nat) && k < nparams { Some(with_value(s)) } else { None },
        Clif::IConst(_) => if emitting(s) { Some(with_value(s)) } else { None },
        Clif::UseVar(x) => if emitting(s) && x < s.vars { Some(with_value(s)) } else { None },
        Clif::DeclareVar => Some(PlanState { vars: s.vars + 1, ..s }),
        Clif::DefVar(x, v) => if emitting(s) && x < s.vars && v < s.values { Some(s) } else { None },
        Clif::Arith(_, a, b) => if emitting(s) && a < s.values && b < s.values { Some(with_value(s)) } else { None },
        Clif::Compare(_, a, b) => if emitting(s) && a < s.values && b < s.values { Some(with_value(s)) } else { None },
        Clif::Uextend(a) => if emitting(s) && a < s.values { Some(with_value(s)) } else { None },
        Clif::BNot(a) => if emitting(s) && a < s.values { Some(with_value(s)) } else { None },
        Clif::Load(a) => if emitting(s) && a < s.values { Some(with_value(s)) } else { None },
        Clif::Store(v, a, _) => if emitting(s) && v < s.values && a < s.values { Some(s) } else { None },
        Clif::Arg(a) => if a < s.values { Some(s) } else { None },
        Clif::Call(f) => if emitting(s) && callee_ok(f, nfuncs) { Some(with_value(s)) } else { None },
        Clif::Brif(c, t, e) => if emitting(s) && c < s.values && t < s.status.len() && e < s.status.len() {
            Some(filled(s))
        } else {
            None
        },
        Clif::Jump(b) => if emitting(s) && b < s.status.len() { Some(filled(s)) } else { None },
        Clif::Return(v) => if emitting(s) && v < s.values { Some(filled(s)) } else { None },
        Clif::ReturnCall(f) => if emitting(s) && callee_ok(f, nfuncs) { Some(filled(s)) } else { None },
    }
}

/// The plan `q` replayed from `s`.
pub open spec fn run_from(s: PlanState, q: Seq<Clif<Seq<char>>>, nparams: nat, nfuncs: nat) -> Option<PlanState>
    decreases q.len(),
{
    if q.len() == 0 {
        Some(s)
    } else {
        match run_from(s, q.drop_last(), nparams, nfuncs) {
            Some(s1) => plan_step(s1, q.last(), nparams, nfuncs),
            None => None,
        }
    }
}

/// Whether the builder accepts the whole plan and every block it created ends
/// in exactly one terminator.
pub open spec fn plan_ok(q: Seq<Clif<Seq<char>>>, nparams: nat, nfuncs: nat) -> bool {
    &&& run_from(initial_state(), q, nparams, nfuncs) matches Some(s)
    &&& s.status.len() > 0
    &&& forall|b: int| 0 <= b < s.status.len() ==> s.status[b] == BlockState::Filled
}

proof fn lemma_run_push(s: PlanState, q: Seq<Clif<Seq<char>>>, i: Clif<Seq<char>>, np: nat, nf: nat)
    ensures
        run_from(s, q.push(i), np, nf) == (match run_from(s, q, np, nf) {
            Some(s1) => plan_step(s1, i, np, nf),
            None => None,
        }),
{
    assert(q.push(i).drop_last() =~= q);
}

proof fn lemma_run_concat(s: PlanState, a: Seq<Clif<Seq<char>>>, b: Seq<Clif<Seq<char>>>, np: nat, nf: nat)
    ensures
        run_from(s, a + b, np, nf) == (match run_from(s, a, np, nf) {
            Some(s1) => run_from(s1, b, np, nf),
            None => None,
        }),
    decreases b.len(),
{
    if b.len() == 0 {
        assert(a + b =~= a);
    } else {
        lemma_run_concat(s, a, b.drop_last(), np, nf);
        assert((a + b).drop_last() =~= a + b.drop_last());
        assert((a + b).last() == b.last());
    }
}

} // verus!

verus! {

/// Whether the open construct `f` will still switch to block `b`.
pub open spec fn frame_pends(f: Frame, b: nat) -> bool {
    match f {
        Frame::If { els, merge, in_else } => (!in_else && b == els) || b == merge,
        Frame::While { head, body, exit, in_body } => (!in_body && b == body) || b == exit,
        Frame::Case { scrut, merge, in_arm, next } => b == merge || (in_arm && b == next),
    }
}

pub open spec fn pending_in(frames: Seq<Frame>, b: nat) -> bool {
    exists|i: int| 0 <= i < frames.len() && #[trigger] frame_pends(frames[i], b)
}

/// The smallest and the largest block a construct names.
pub open spec fn fmin(f: Frame) -> nat {
    match f {
        Frame::If { els, .. } => els as nat,
        Frame::While { head, .. } => head as nat,
        Frame::Case { merge, .. } => merge as nat,
    }
}

pub open spec fn fmax(f: Frame) -> nat {
    match f {
        Frame::If { merge, .. } => merge as nat,
        Frame::While { exit, .. } => exit as nat,
        Frame::Case { merge, in_arm, next, .. } => if in_arm { next as nat } else { merge as nat },
    }
}

pub open spec fn frame_wf(f: Frame, blocks: nat, values: nat) -> bool {
    match f {
        Frame::If { els, merge, .. } => els < merge < blocks,
        Frame::While { head, body, exit, .. } => head < body < exit < blocks,
        Frame::Case { scrut, merge, in_arm, next } => scrut < values && merge < blocks && (in_arm ==> merge < next < blocks),
    }
}

/// The lowering state `c` agrees with the builder state `s`, whose insertion
/// point is `cur`: the same numbers of values, variables and blocks; the
/// insertion point open unless a terminator ended it; every other block either
/// ended or still to be entered by an open construct, and the constructs' blocks
/// ordered from the outermost in.
pub open spec fn agrees(c: Lctx, s: PlanState, cur: nat) -> bool {
    &&& s.values == c.values
    &&& s.vars == c.vars.len()
    &&& s.status.len() == c.blocks
    &&& s.params_block == Some(0nat)
    &&& s.current == Some(cur)
    &&& cur < c.blocks
    &&& s.status[cur as int] == (if c.terminated { BlockState::Filled } else { BlockState::Open })
    &&& forall|b: int| 0 <= b < c.blocks && b != cur ==> #[trigger] s.status[b] != BlockState::Open
    &&& forall|b: int| 0 <= b < c.blocks ==> (#[trigger] s.status[b] == BlockState::Pending <==> pending_in(c.frames, b as nat))
    &&& forall|i: int| 0 <= i < c.frames.len() ==> frame_wf(#[trigger] c.frames[i], c.blocks, c.values)
    &&& forall|i: int, j: int| 0 <= i < j < c.frames.len() ==> fmax(#[trigger] c.frames[i]) < fmin(#[trigger] c.frames[j])
    &&& forall|k: int| 0 <= k < c.stack.len() ==> #[trigger] c.stack[k] < c.values
}

proof fn lemma_run_one(s: PlanState, i: Clif<Seq<char>>, np: nat, nf: nat)
    ensures
        run_from(s, seq![i], np, nf) == plan_step(s, i, np, nf),
{
    lemma_run_push(s, seq![], i, np, nf);
}

proof fn lemma_run_args(s: PlanState, args: Seq<usize>, np: nat, nf: nat)
    requires
        forall|k: int| 0 <= k < args.len() ==> #[trigger] args[k] < s.values,
    ensures
        run_from(s, arg_insts(args), np, nf) == Some(s),
    decreases args.len(),
{
    if args.len() > 0 {
        let a = args.drop_last();
        assert(arg_insts(args) =~= arg_insts(a).push(Clif::Arg(args.last())));
        assert forall|k: int| 0 <= k < a.len() implies #[trigger] a[k] < s.values by {
            assert(a[k] == args[k]);
        }
        lemma_run_args(s, a, np, nf);
        lemma_run_push(s, arg_insts(a), Clif::Arg(args.last()), np, nf);
    } else {
        assert(arg_insts(args) =~= seq![]);
    }
}

proof fn lemma_run_stores(s: PlanState, args: Seq<usize>, p: usize, n: nat, np: nat, nf: nat)
    requires
        emitting(s),
        p < s.values,
        n < args.len(),
        forall|k: int| 0 <= k < args.len() ==> #[trigger] args[k] < s.values,
    ensures
        run_from(s, stores_upto(args, p, n), np, nf) == Some(s),
    decreases n,
{
    if n > 0 {
        let last = Clif::<Seq<char>>::Store(args[n as int], p, field_offset(n));
        assert(stores_upto(args, p, n) =~= stores_upto(args, p, (n - 1) as nat).push(last));
        lemma_run_stores(s, args, p, (n - 1) as nat, np, nf);
        lemma_run_push(s, stores_upto(args, p, (n - 1) as nat), last, np, nf);
        assert(args[n as int] < s.values);
    } else {
        assert(stores_upto(args, p, n) =~= seq![]);
    }
}

} // verus!

verus! {

proof fn lemma_last_position_bound(names: Seq<Seq<char>>, n: Seq<char>)
    ensures
        last_position(names, n) matches Some(i) ==> i < names.len(),
    decreases names.len(),
{
    if names.len() > 0 && names.last() != n {
        lemma_last_position_bound(names.drop_last(), n);
    }
}

proof fn lemma_callee_ok(n: Seq<char>, funcs: Seq<Seq<char>>)
    ensures
        callee_of(n, funcs) matches Some(f) ==> callee_ok(f, funcs.len()),
{
    lemma_last_position_bound(funcs, n);
}

/// An expression step keeps the blocks and the constructs; the builder state
/// only gains the new values and variables.
proof fn lemma_agrees_update(c: Lctx, s: PlanState, cur: nat, c2: Lctx)
    requires
        agrees(c, s, cur),
        c2.blocks == c.blocks,
        c2.frames == c.frames,
        c2.terminated == c.terminated,
        c2.values >= c.values,
        forall|k: int| 0 <= k < c2.stack.len() ==> #[trigger] c2.stack[k] < c2.values,
    ensures
        agrees(c2, PlanState { values: c2.values, vars: c2.vars.len(), ..s }, cur),
{
    assert forall|i: int| 0 <= i < c2.frames.len() implies frame_wf(#[trigger] c2.frames[i], c2.blocks, c2.values) by {
        assert(frame_wf(c.frames[i], c.blocks, c.values));
    }
}

proof fn lemma_top_bound(c: Lctx, k: nat)
    requires
        k <= c.stack.len(),
        forall|j: int| 0 <= j < c.stack.len() ==> #[trigger] c.stack[j] < c.values,
    ensures
        forall|j: int| 0 <= j < k ==> #[trigger] top(c, k)[j] < c.values,
        forall|j: int| 0 <= j < popped(c, k).stack.len() ==> #[trigger] popped(c, k).stack[j] < c.values,
{
    assert forall|j: int| 0 <= j < k implies #[trigger] top(c, k)[j] < c.values by {
        assert(top(c, k)[j] == c.stack[c.stack.len() - k + j]);
    }
    assert forall|j: int| 0 <= j < popped(c, k).stack.len() implies #[trigger] popped(c, k).stack[j] < c.values by {
        assert(popped(c, k).stack[j] == c.stack[j]);
    }
}

/// A call in an expression is accepted by the builder and only adds values.
proof fn lemma_call_valid(c: Lctx, s: PlanState, cur: nat, n: Seq<char>, k: nat, funcs: Seq<Seq<char>>, np: nat)
    requires
        agrees(c, s, cur),
        !c.terminated,
        call_step(c, n, k, funcs) is Ok,
    ensures ({
        let (q, c2) = call_step(c, n, k, funcs)->Ok_0;
        &&& run_from(s, q, np, funcs.len()) == Some(PlanState { values: c2.values, vars: c2.vars.len(), ..s })
        &&& agrees(c2, PlanState { values: c2.values, vars: c2.vars.len(), ..s }, cur)
        &&& c2.blocks == c.blocks && c2.frames == c.frames && c2.terminated == c.terminated
    }),
{
    let nf = funcs.len();
    let args = top(c, k);
    let c1 = popped(c, k);
    let x = next_value(c1);
    lemma_top_bound(c, k);
    let (q, c2) = call_step(c, n, k, funcs)->Ok_0;
    let s2 = PlanState { values: c2.values, vars: c2.vars.len(), ..s };
    assert(emitting(s));
    if is_slot_get(n) {
        assert(k >= 2);
        let a = Clif::<Seq<char>>::Arith(Arith::Add, args[0], args[1]);
        lemma_run_one(s, a, np, nf);
        assert(plan_step(s, a, np, nf) == Some(with_value(s)));
        lemma_run_push(s, seq![a], Clif::Load(x), np, nf);
        assert(q =~= seq![a].push(Clif::Load(x)));
        assert(run_from(s, q, np, nf) == Some(with_value(with_value(s))));
    } else if n == "__record_new"@ || n == "__union_new"@ {
        assert(k >= 1);
        let s1 = with_value(s);
        let a = Clif::<Seq<char>>::Arg(args[0]);
        lemma_run_one(s, a, np, nf);
        assert(plan_step(s, a, np, nf) == Some(s));
        lemma_run_push(s, seq![a], Clif::Call(Callee::Alloc), np, nf);
        assert(seq![a, Clif::Call(Callee::Alloc)] =~= seq![a].push(Clif::Call(Callee::Alloc)));
        assert(run_from(s, seq![Clif::Arg(args[0]), Clif::Call(Callee::Alloc)], np, nf) == Some(s1));
        lemma_run_concat(s, seq![Clif::Arg(args[0]), Clif::Call(Callee::Alloc)], field_stores(args, x), np, nf);
        lemma_run_stores(s1, args, x, (args.len() - 1) as nat, np, nf);
        assert(run_from(s, q, np, nf) == Some(s1));
    } else {
        lemma_callee_ok(n, funcs);
        let f = callee_of(n, funcs)->Some_0;
        lemma_run_args(s, args, np, nf);
        lemma_run_push(s, arg_insts(args), Clif::Call(f), np, nf);
        assert(run_from(s, q, np, nf) == Some(with_value(s)));
    }
    assert forall|j: int| 0 <= j < c2.stack.len() implies #[trigger] c2.stack[j] < c2.values by {
        if j < c1.stack.len() {
            assert(c2.stack[j] == c1.stack[j]);
        }
    }
    lemma_agrees_update(c, s, cur, c2);
}

} // verus!

verus! {

proof fn lemma_run_two(s: PlanState, a: Clif<Seq<char>>, b: Clif<Seq<char>>, np: nat, nf: nat)
    ensures
        run_from(s, seq![a, b], np, nf) == (match plan_step(s, a, np, nf) {
            Some(s1) => plan_step(s1, b, np, nf),
            None => None,
        }),
{
    lemma_run_one(s, a, np, nf);
    lemma_run_push(s, seq![a], b, np, nf);
    assert(seq![a, b] =~= seq![a].push(b));
}

/// An expression operation other than a call is accepted by the builder and
/// only adds values and variables.
proof fn lemma_value_valid(c: Lctx, s: PlanState, cur: nat, op: Op<Seq<char>>, funcs: Seq<Seq<char>>, np: nat)
    requires
        agrees(c, s, cur),
        op_step(c, op, funcs) is Ok,
        op is Const || op is Var || op is Binary || op is Not || op is Load || op is Let || op is Store || op is Drop,
    ensures ({
        let (q, c2) = op_step(c, op, funcs)->Ok_0;
        &&& run_from(s, q, np, funcs.len()) == Some(PlanState { values: c2.values, vars: c2.vars.len(), ..s })
        &&& agrees(c2, PlanState { values: c2.values, vars: c2.vars.len(), ..s }, cur)
        &&& c2.blocks == c.blocks && c2.frames == c.frames && c2.terminated == c.terminated
    }),
{
    let nf = funcs.len();
    let (q, c2) = op_step(c, op, funcs)->Ok_0;
    assert(!c.terminated);
    assert(emitting(s));
    match op {
        Op::Const(v) => {
            lemma_run_one(s, Clif::IConst(v), np, nf);
        },
        Op::Var(n) => {
            lemma_last_position_bound(c.vars, n);
            let x = last_position(c.vars, n)->Some_0;
            lemma_run_one(s, Clif::UseVar(x as usize), np, nf);
        },
        Op::Binary(b) => {
            lemma_top_bound(c, 2);
            let args = top(c, 2);
            let x = next_value(popped(c, 2));
            match cond_of(b) {
                Some(cond) => {
                    lemma_run_two(s, Clif::Compare(cond, args[0], args[1]), Clif::Uextend(x), np, nf);
                },
                None => {
                    lemma_run_one(s, Clif::Arith(arith_of(b), args[0], args[1]), np, nf);
                },
            }
        },
        Op::Not => {
            lemma_top_bound(c, 1);
            lemma_run_one(s, Clif::BNot(c.stack.last()), np, nf);
        },
        Op::Load => {
            lemma_top_bound(c, 1);
            lemma_run_one(s, Clif::Load(c.stack.last()), np, nf);
        },
        Op::Let(n) => {
            lemma_top_bound(c, 1);
            lemma_last_position_bound(c.vars, n);
            let v = c.stack.last();
            match last_position(c.vars, n) {
                Some(x) => {
                    lemma_run_one(s, Clif::DefVar(x as usize, v), np, nf);
                },
                None => {
                    lemma_run_two(s, Clif::DeclareVar, Clif::DefVar(c.vars.len() as usize, v), np, nf);
                },
            }
        },
        Op::Store => {
            lemma_top_bound(c, 2);
            let args = top(c, 2);
            lemma_run_one(s, Clif::Store(args[1], args[0], 0), np, nf);
        },
        _ => {
            lemma_top_bound(c, 1);
        },
    }
    assert forall|j: int| 0 <= j < c2.stack.len() implies #[trigger] c2.stack[j] < c2.values by {
        if j < c.stack.len() && j < c2.stack.len() - 1 {
            assert(c2.stack[j] == c.stack[j]);
        }
    }
    lemma_agrees_update(c, s, cur, c2);
}

} // verus!

verus! {

/// The builder state after new values and a terminator ending the insertion point.
pub open spec fn after_terminator(s: PlanState, c2: Lctx, cur: nat) -> PlanState {
    PlanState { values: c2.values, vars: c2.vars.len(), status: s.status.update(cur as int, BlockState::Filled), ..s }
}

proof fn lemma_agrees_fill(c: Lctx, s: PlanState, cur: nat, c2: Lctx)
    requires
        agrees(c, s, cur),
        !c.terminated,
        c2.terminated,
        c2.blocks == c.blocks,
        c2.frames == c.frames,
        c2.values >= c.values,
        forall|k: int| 0 <= k < c2.stack.len() ==> #[trigger] c2.stack[k] < c2.values,
    ensures
        agrees(c2, after_terminator(s, c2, cur), cur),
{
    let s2 = after_terminator(s, c2, cur);
    assert(!pending_in(c.frames, cur)) by {
        assert(s.status[cur as int] != BlockState::Pending);
    }
    assert forall|b: int| 0 <= b < c2.blocks implies (#[trigger] s2.status[b] == BlockState::Pending <==> pending_in(c2.frames, b as nat)) by {
        if b != cur {
            assert(s2.status[b] == s.status[b]);
        }
    }
    assert forall|b: int| 0 <= b < c2.blocks && b != cur implies #[trigger] s2.status[b] != BlockState::Open by {
        assert(s2.status[b] == s.status[b]);
    }
    assert forall|i: int| 0 <= i < c2.frames.len() implies frame_wf(#[trigger] c2.frames[i], c2.blocks, c2.values) by {
        assert(frame_wf(c.frames[i], c.blocks, c.values));
    }
}

/// A `return` or a tail call is accepted by the builder and ends the insertion point.
proof fn lemma_terminator_valid(c: Lctx, s: PlanState, cur: nat, op: Op<Seq<char>>, funcs: Seq<Seq<char>>, np: nat)
    requires
        agrees(c, s, cur),
        op_step(c, op, funcs) is Ok,
        op is Return || op is TailCall,
    ensures ({
        let (q, c2) = op_step(c, op, funcs)->Ok_0;
        &&& run_from(s, q, np, funcs.len()) == Some(after_terminator(s, c2, cur))
        &&& agrees(c2, after_terminator(s, c2, cur), cur)
        &&& c2.blocks == c.blocks && c2.frames == c.frames && c2.terminated
    }),
{
    let nf = funcs.len();
    let (q, c2) = op_step(c, op, funcs)->Ok_0;
    assert(!c.terminated);
    assert(emitting(s));
    match op {
        Op::TailCall(n, k32) => {
            let k = k32 as nat;
            lemma_top_bound(c, k);
            let args = top(c, k);
            let c1 = Lctx { terminated: true, ..popped(c, k) };
            let x = next_value(c1);
            if is_slot_get(n) {
                assert(k >= 2);
                let a = Clif::<Seq<char>>::Arith(Arith::Add, args[0], args[1]);
                lemma_run_two(s, a, Clif::Load(x), np, nf);
                lemma_run_push(s, seq![a, Clif::Load(x)], Clif::Return((x + 1) as usize), np, nf);
                assert(q =~= seq![a, Clif::Load(x)].push(Clif::Return((x + 1) as usize)));
            } else if n == "__record_new"@ {
                assert(k >= 1);
                let s1 = with_value(s);
                let a = Clif::<Seq<char>>::Arg(args[0]);
                lemma_run_two(s, a, Clif::Call(Callee::Alloc), np, nf);
                lemma_run_concat(s, seq![a, Clif::Call(Callee::Alloc)], field_stores(args, x), np, nf);
                lemma_run_stores(s1, args, x, (args.len() - 1) as nat, np, nf);
                lemma_run_push(s, record_insts(args, x), Clif::Return(x), np, nf);
            } else {
                lemma_callee_ok(n, funcs);
                let f = callee_of(n, funcs)->Some_0;
                lemma_run_args(s, args, np, nf);
                lemma_run_push(s, arg_insts(args), Clif::ReturnCall(f), np, nf);
            }
            assert forall|j: int| 0 <= j < c2.stack.len() implies #[trigger] c2.stack[j] < c2.values by {
                assert(c2.stack[j] == c.stack[j]);
            }
        },
        _ => {
            lemma_top_bound(c, 1);
            lemma_run_one(s, Clif::Return(c.stack.last()), np, nf);
            assert forall|j: int| 0 <= j < c2.stack.len() implies #[trigger] c2.stack[j] < c2.values by {
                assert(c2.stack[j] == c.stack[j]);
            }
        },
    }
    lemma_agrees_fill(c, s, cur, c2);
}

} // verus!

verus! {

proof fn lemma_run_three(s: PlanState, a: Clif<Seq<char>>, b: Clif<Seq<char>>, c: Clif<Seq<char>>, np: nat, nf: nat)
    ensures
        run_from(s, seq![a, b, c], np, nf) == (match run_from(s, seq![a, b], np, nf) {
            Some(s1) => plan_step(s1, c, np, nf),
            None => None,
        }),
{
    lemma_run_push(s, seq![a, b], c, np, nf);
    assert(seq![a, b, c] =~= seq![a, b].push(c));
}

proof fn lemma_pends_bound(f: Frame, blocks: nat, values: nat, b: nat)
    requires
        frame_wf(f, blocks, values),
    ensures
        fmin(f) <= fmax(f) < blocks,
        frame_pends(f, b) ==> fmin(f) <= b <= fmax(f),
{
}

proof fn lemma_pending_push(frames: Seq<Frame>, f: Frame, b: nat)
    ensures
        pending_in(frames.push(f), b) == (pending_in(frames, b) || frame_pends(f, b)),
{
    let g = frames.push(f);
    if pending_in(g, b) {
        let i = choose|i: int| 0 <= i < g.len() && #[trigger] frame_pends(g[i], b);
        if i < frames.len() {
            assert(frame_pends(frames[i], b));
        }
    }
    if pending_in(frames, b) {
        let i = choose|i: int| 0 <= i < frames.len() && #[trigger] frame_pends(frames[i], b);
        assert(frame_pends(g[i], b));
    }
    if frame_pends(f, b) {
        assert(frame_pends(g[frames.len() as int], b));
    }
}

/// No construct names a block at or past `blocks`, and below the innermost
/// construct's smallest block none but the outer ones do.
proof fn lemma_pending_range(c: Lctx, s: PlanState, cur: nat, b: nat)
    requires
        agrees(c, s, cur),
    ensures
        b >= c.blocks ==> !pending_in(c.frames, b),
        c.frames.len() > 0 && b >= fmin(c.frames.last()) ==> (pending_in(c.frames, b) == frame_pends(c.frames.last(), b)),
{
    if pending_in(c.frames, b) {
        let i = choose|i: int| 0 <= i < c.frames.len() && #[trigger] frame_pends(c.frames[i], b);
        lemma_pends_bound(c.frames[i], c.blocks, c.values, b);
        if c.frames.len() > 0 && b >= fmin(c.frames.last()) && i < c.frames.len() - 1 {
            assert(fmax(c.frames[i]) < fmin(c.frames[c.frames.len() - 1]));
        }
    }
    if c.frames.len() > 0 && frame_pends(c.frames.last(), b) {
        assert(frame_pends(c.frames[c.frames.len() - 1], b));
    }
}

} // verus!

verus! {

/// Every value and block id fits a `usize`.
pub open spec fn bounded(c: Lctx) -> bool {
    c.values <= usize::MAX && c.blocks <= usize::MAX
}

/// Frames stay well formed as blocks and values are added.
proof fn lemma_frames_grow(c: Lctx, s: PlanState, cur: nat, blocks: nat, values: nat)
    requires
        agrees(c, s, cur),
        blocks >= c.blocks,
        values >= c.values,
    ensures
        forall|i: int| 0 <= i < c.frames.len() ==> frame_wf(#[trigger] c.frames[i], blocks, values),
        forall|i: int| 0 <= i < c.frames.len() ==> fmax(#[trigger] c.frames[i]) < c.blocks,
{
    assert forall|i: int| 0 <= i < c.frames.len() implies frame_wf(#[trigger] c.frames[i], blocks, values) by {
        assert(frame_wf(c.frames[i], c.blocks, c.values));
    }
    assert forall|i: int| 0 <= i < c.frames.len() implies fmax(#[trigger] c.frames[i]) < c.blocks by {
        lemma_pends_bound(c.frames[i], c.blocks, c.values, 0);
    }
}

/// Opening an `if`.
proof fn lemma_if_then_valid(c: Lctx, s: PlanState, cur: nat, funcs: Seq<Seq<char>>, np: nat) -> (r: (PlanState, nat))
    requires
        agrees(c, s, cur),
        op_step(c, Op::IfThen, funcs) is Ok,
        bounded(op_step(c, Op::IfThen, funcs)->Ok_0.1),
    ensures ({
        let (q, c2) = op_step(c, Op::IfThen, funcs)->Ok_0;
        run_from(s, q, np, funcs.len()) == Some(r.0) && agrees(c2, r.0, r.1)
    }),
{
    let nf = funcs.len();
    let (q, c2) = op_step(c, Op::IfThen, funcs)->Ok_0;
    assert(!c.terminated);
    let cond = c.stack.last();
    let c1 = popped(c, 1);
    let x = next_value(c1);
    let t = c.blocks;
    lemma_top_bound(c, 1);
    let q1 = seq![Clif::<Seq<char>>::IConst(0), Clif::Compare(Cond::Ne, cond, x)];
    let q2 = seq![Clif::<Seq<char>>::CreateBlock, Clif::CreateBlock, Clif::CreateBlock];
    let q3 = seq![Clif::<Seq<char>>::Brif((c1.values + 1) as usize, t as usize, (t + 1) as usize), Clif::SwitchTo(t as usize)];
    assert(q == q1 + q2 + q3);
    let sa = with_value(with_value(s));
    let sb = PlanState { status: s.status.push(BlockState::Pending).push(BlockState::Pending).push(BlockState::Pending), ..sa };
    let sc = PlanState { status: sb.status.update(cur as int, BlockState::Filled), ..sb };
    let sd = PlanState { status: sc.status.update(t as int, BlockState::Open), current: Some(t), ..sc };
    lemma_run_two(s, q1[0], q1[1], np, nf);
    assert(run_from(s, q1, np, nf) == Some(sa));
    lemma_run_three(sa, q2[0], q2[1], q2[2], np, nf);
    lemma_run_two(sa, q2[0], q2[1], np, nf);
    assert(run_from(sa, q2, np, nf) == Some(sb));
    lemma_run_two(sb, q3[0], q3[1], np, nf);
    assert(run_from(sb, q3, np, nf) == Some(sd));
    lemma_run_concat(s, q1, q2, np, nf);
    lemma_run_concat(s, q1 + q2, q3, np, nf);
    let f = Frame::If { els: (t + 1) as usize, merge: (t + 2) as usize, in_else: false };
    assert(c2.frames == c.frames.push(f));
    lemma_frames_grow(c, s, cur, c2.blocks, c2.values);
    assert forall|b: int| 0 <= b < c2.blocks implies (#[trigger] sd.status[b] == BlockState::Pending <==> pending_in(c2.frames, b as nat)) by {
        lemma_pending_push(c.frames, f, b as nat);
        lemma_pending_range(c, s, cur, b as nat);
        if b < c.blocks && b != cur {
            assert(sd.status[b] == s.status[b]);
        }
    }
    assert forall|b: int| 0 <= b < c2.blocks && b != t implies #[trigger] sd.status[b] != BlockState::Open by {
        if b < c.blocks && b != cur {
            assert(sd.status[b] == s.status[b]);
        }
    }
    assert forall|i: int, j: int| 0 <= i < j < c2.frames.len() implies fmax(#[trigger] c2.frames[i]) < fmin(#[trigger] c2.frames[j]) by {
        if j < c.frames.len() {
            assert(c2.frames[i] == c.frames[i] && c2.frames[j] == c.frames[j]);
        } else {
            assert(c2.frames[i] == c.frames[i]);
        }
    }
    assert forall|i: int| 0 <= i < c2.frames.len() implies frame_wf(#[trigger] c2.frames[i], c2.blocks, c2.values) by {
        if i < c.frames.len() {
            assert(c2.frames[i] == c.frames[i]);
        }
    }
    assert forall|k: int| 0 <= k < c2.stack.len() implies #[trigger] c2.stack[k] < c2.values by {
        assert(c2.stack[k] == c.stack[k]);
    }
    (sd, t)
}

} // verus!

verus! {

proof fn lemma_outer_not_pending(c: Lctx, s: PlanState, cur: nat, b: nat)
    requires
        agrees(c, s, cur),
        c.frames.len() > 0,
        b >= fmin(c.frames.last()),
    ensures
        !pending_in(c.frames.drop_last(), b),
{
    let d = c.frames.drop_last();
    if pending_in(d, b) {
        let i = choose|i: int| 0 <= i < d.len() && #[trigger] frame_pends(d[i], b);
        assert(d[i] == c.frames[i]);
        lemma_pends_bound(c.frames[i], c.blocks, c.values, b);
        assert(fmax(c.frames[i]) < fmin(c.frames[c.frames.len() - 1]));
    }
}

/// Leaving the insertion point `cur` with a terminator and entering the block
/// `dst` that the innermost construct was waiting for: the construct is closed
/// (`keep` false) or replaced by `t2`, which waits for the same blocks but `dst`.
proof fn lemma_switch_agrees(c: Lctx, s: PlanState, cur: nat, c2: Lctx, dst: nat, keep: bool, t2: Frame)
    requires
        agrees(c, s, cur),
        c.frames.len() > 0,
        frame_pends(c.frames.last(), dst),
        dst >= fmin(c.frames.last()),
        c2.blocks == c.blocks,
        c2.values >= c.values,
        !c2.terminated,
        keep ==> c2.frames == c.frames.drop_last().push(t2),
        !keep ==> c2.frames == c.frames.drop_last(),
        keep ==> fmin(t2) == fmin(c.frames.last()) && frame_wf(t2, c2.blocks, c2.values),
        keep ==> forall|b: nat| #[trigger] frame_pends(t2, b) == (frame_pends(c.frames.last(), b) && b != dst),
        !keep ==> forall|b: nat| #[trigger] frame_pends(c.frames.last(), b) ==> b == dst,
        forall|k: int| 0 <= k < c2.stack.len() ==> #[trigger] c2.stack[k] < c2.values,
    ensures ({
        let st = PlanState { values: c2.values, vars: c2.vars.len(), status: s.status.update(cur as int, BlockState::Filled), ..s };
        agrees(c2, PlanState { status: st.status.update(dst as int, BlockState::Open), current: Some(dst), ..st }, dst)
    }),
{
    let st = PlanState { values: c2.values, vars: c2.vars.len(), status: s.status.update(cur as int, BlockState::Filled), ..s };
    let sd = PlanState { status: st.status.update(dst as int, BlockState::Open), current: Some(dst), ..st };
    let t = c.frames.last();
    let d = c.frames.drop_last();
    assert(c.frames == d.push(t));
    assert(frame_wf(c.frames[c.frames.len() - 1], c.blocks, c.values));
    lemma_pends_bound(t, c.blocks, c.values, dst);
    lemma_pending_push(d, t, dst);
    assert(pending_in(c.frames, dst));
    assert(s.status[dst as int] == BlockState::Pending);
    assert(dst != cur);
    lemma_outer_not_pending(c, s, cur, dst);
    assert(!pending_in(c.frames, cur)) by {
        assert(s.status[cur as int] != BlockState::Pending);
    }
    assert forall|b: int| 0 <= b < c2.blocks implies (#[trigger] sd.status[b] == BlockState::Pending <==> pending_in(c2.frames, b as nat)) by {
        lemma_pending_push(d, t, b as nat);
        if keep {
            lemma_pending_push(d, t2, b as nat);
            assert(frame_pends(t2, b as nat) == (frame_pends(t, b as nat) && b != dst));
        } else {
            assert(frame_pends(t, b as nat) ==> b == dst);
        }
        if b != cur && b != dst {
            assert(sd.status[b] == s.status[b]);
        }
    }
    assert forall|b: int| 0 <= b < c2.blocks && b != dst implies #[trigger] sd.status[b] != BlockState::Open by {
        if b != cur {
            assert(sd.status[b] == s.status[b]);
        }
    }
    lemma_frames_grow(c, s, cur, c2.blocks, c2.values);
    assert forall|i: int| 0 <= i < c2.frames.len() implies frame_wf(#[trigger] c2.frames[i], c2.blocks, c2.values) by {
        if i < d.len() {
            assert(c2.frames[i] == c.frames[i]);
        }
    }
    assert forall|i: int, j: int| 0 <= i < j < c2.frames.len() implies fmax(#[trigger] c2.frames[i]) < fmin(#[trigger] c2.frames[j]) by {
        assert(c2.frames[i] == c.frames[i]);
        if j < d.len() {
            assert(c2.frames[j] == c.frames[j]);
        } else {
            assert(fmax(c.frames[i]) < fmin(c.frames[c.frames.len() - 1]));
        }
    }
}

} // verus!

verus! {

/// The jump that closes a branch (unless it already ended) and the switch to `dst`.
proof fn lemma_run_close_switch(c: Lctx, s: PlanState, cur: nat, target: usize, dst: usize, np: nat, nf: nat)
    requires
        agrees(c, s, cur),
        target < c.blocks,
        dst < c.blocks,
        s.status[dst as int] == BlockState::Pending,
    ensures ({
        let st = PlanState { status: s.status.update(cur as int, BlockState::Filled), ..s };
        run_from(s, close_insts(c, target).push(Clif::SwitchTo(dst)), np, nf)
            == Some(PlanState { status: st.status.update(dst as int, BlockState::Open), current: Some(dst as nat), ..st })
    }),
{
    let st = PlanState { status: s.status.update(cur as int, BlockState::Filled), ..s };
    if c.terminated {
        assert(st.status =~= s.status);
        assert(close_insts(c, target) =~= seq![]);
        assert(run_from(s, seq![], np, nf) == Some(s));
    } else {
        lemma_run_one(s, Clif::Jump(target), np, nf);
    }
    lemma_run_push(s, close_insts(c, target), Clif::SwitchTo(dst), np, nf);
}

/// Closing a branch or a construct: the insertion point is ended (by a jump to
/// `target` unless it already ended) and the awaited block entered.
proof fn lemma_close_valid(c: Lctx, s: PlanState, cur: nat, op: Op<Seq<char>>, funcs: Seq<Seq<char>>, np: nat) -> (r: (PlanState, nat))
    requires
        agrees(c, s, cur),
        op_step(c, op, funcs) is Ok,
        op is IfElse || op is IfEnd || op is WhileEnd || op is CaseArmEnd || op is CaseEnd,
    ensures ({
        let (q, c2) = op_step(c, op, funcs)->Ok_0;
        run_from(s, q, np, funcs.len()) == Some(r.0) && agrees(c2, r.0, r.1)
    }),
{
    let nf = funcs.len();
    let (q, c2) = op_step(c, op, funcs)->Ok_0;
    let t = c.frames.last();
    assert(frame_wf(c.frames[c.frames.len() - 1], c.blocks, c.values));
    let st = PlanState { values: c2.values, vars: c2.vars.len(), status: s.status.update(cur as int, BlockState::Filled), ..s };
    assert(c.frames == c.frames.drop_last().push(t));
    lemma_pending_push(c.frames.drop_last(), t, 0);
    match t {
        Frame::If { els, merge, in_else } => {
            let dst = if op is IfElse { els } else { merge };
            assert(pending_in(c.frames, dst as nat)) by { lemma_pending_push(c.frames.drop_last(), t, dst as nat); }
            assert(s.status[dst as int] == BlockState::Pending);
            lemma_run_close_switch(c, s, cur, merge, dst, np, nf);
            let t2 = Frame::If { els, merge, in_else: true };
            lemma_switch_agrees(c, s, cur, c2, dst as nat, op is IfElse, t2);
            (PlanState { status: st.status.update(dst as int, BlockState::Open), current: Some(dst as nat), ..st }, dst as nat)
        },
        Frame::While { head, body, exit, in_body } => {
            assert(pending_in(c.frames, exit as nat)) by { lemma_pending_push(c.frames.drop_last(), t, exit as nat); }
            assert(s.status[exit as int] == BlockState::Pending);
            lemma_run_close_switch(c, s, cur, head, exit, np, nf);
            lemma_switch_agrees(c, s, cur, c2, exit as nat, false, t);
            (PlanState { status: st.status.update(exit as int, BlockState::Open), current: Some(exit as nat), ..st }, exit as nat)
        },
        Frame::Case { scrut, merge, in_arm, next } => {
            let dst = if op is CaseArmEnd { next } else { merge };
            assert(pending_in(c.frames, dst as nat)) by { lemma_pending_push(c.frames.drop_last(), t, dst as nat); }
            assert(s.status[dst as int] == BlockState::Pending);
            lemma_run_close_switch(c, s, cur, merge, dst, np, nf);
            let t2 = Frame::Case { scrut, merge, in_arm: false, next: 0 };
            lemma_switch_agrees(c, s, cur, c2, dst as nat, op is CaseArmEnd, t2);
            (PlanState { status: st.status.update(dst as int, BlockState::Open), current: Some(dst as nat), ..st }, dst as nat)
        },
    }
}

} // verus!

verus! {

/// Opening a `while`: three blocks, a jump to the header, the header entered.
proof fn lemma_while_head_valid(c: Lctx, s: PlanState, cur: nat, funcs: Seq<Seq<char>>, np: nat) -> (r: (PlanState, nat))
    requires
        agrees(c, s, cur),
        op_step(c, Op::WhileHead, funcs) is Ok,
        bounded(op_step(c, Op::WhileHead, funcs)->Ok_0.1),
    ensures ({
        let (q, c2) = op_step(c, Op::WhileHead, funcs)->Ok_0;
        run_from(s, q, np, funcs.len()) == Some(r.0) && agrees(c2, r.0, r.1)
    }),
{
    let nf = funcs.len();
    let (q, c2) = op_step(c, Op::WhileHead, funcs)->Ok_0;
    assert(!c.terminated);
    let h = c.blocks;
    let q1 = seq![Clif::<Seq<char>>::CreateBlock, Clif::CreateBlock, Clif::CreateBlock];
    let q2 = seq![Clif::<Seq<char>>::Jump(h as usize), Clif::SwitchTo(h as usize)];
    assert(q == q1 + q2);
    let sb = PlanState { status: s.status.push(BlockState::Pending).push(BlockState::Pending).push(BlockState::Pending), ..s };
    let sc = PlanState { status: sb.status.update(cur as int, BlockState::Filled), ..sb };
    let sd = PlanState { status: sc.status.update(h as int, BlockState::Open), current: Some(h), ..sc };
    lemma_run_three(s, q1[0], q1[1], q1[2], np, nf);
    lemma_run_two(s, q1[0], q1[1], np, nf);
    assert(run_from(s, q1, np, nf) == Some(sb));
    lemma_run_two(sb, q2[0], q2[1], np, nf);
    assert(run_from(sb, q2, np, nf) == Some(sd));
    lemma_run_concat(s, q1, q2, np, nf);
    let f = Frame::While { head: h as usize, body: (h + 1) as usize, exit: (h + 2) as usize, in_body: false };
    assert(c2.frames == c.frames.push(f));
    lemma_frames_grow(c, s, cur, c2.blocks, c2.values);
    assert forall|b: int| 0 <= b < c2.blocks implies (#[trigger] sd.status[b] == BlockState::Pending <==> pending_in(c2.frames, b as nat)) by {
        lemma_pending_push(c.frames, f, b as nat);
        lemma_pending_range(c, s, cur, b as nat);
        if b < c.blocks && b != cur {
            assert(sd.status[b] == s.status[b]);
        }
    }
    assert forall|b: int| 0 <= b < c2.blocks && b != h implies #[trigger] sd.status[b] != BlockState::Open by {
        if b < c.blocks && b != cur {
            assert(sd.status[b] == s.status[b]);
        }
    }
    assert forall|i: int, j: int| 0 <= i < j < c2.frames.len() implies fmax(#[trigger] c2.frames[i]) < fmin(#[trigger] c2.frames[j]) by {
        assert(c2.frames[i] == c.frames[i]);
        if j < c.frames.len() {
            assert(c2.frames[j] == c.frames[j]);
        }
    }
    assert forall|i: int| 0 <= i < c2.frames.len() implies frame_wf(#[trigger] c2.frames[i], c2.blocks, c2.values) by {
        if i < c.frames.len() {
            assert(c2.frames[i] == c.frames[i]);
        }
    }
    (sd, h)
}

/// Entering a loop's body: the branch on the condition ends the header.
proof fn lemma_while_body_valid(c: Lctx, s: PlanState, cur: nat, funcs: Seq<Seq<char>>, np: nat) -> (r: (PlanState, nat))
    requires
        agrees(c, s, cur),
        op_step(c, Op::WhileBody, funcs) is Ok,
    ensures ({
        let (q, c2) = op_step(c, Op::WhileBody, funcs)->Ok_0;
        run_from(s, q, np, funcs.len()) == Some(r.0) && agrees(c2, r.0, r.1)
    }),
{
    let nf = funcs.len();
    let (q, c2) = op_step(c, Op::WhileBody, funcs)->Ok_0;
    assert(!c.terminated);
    let t = c.frames.last();
    let (head, body, exit) = match t { Frame::While { head, body, exit, .. } => (head, body, exit), _ => (0, 0, 0) };
    assert(frame_wf(c.frames[c.frames.len() - 1], c.blocks, c.values));
    lemma_top_bound(c, 1);
    let cond = c.stack.last();
    let c1 = popped(c, 1);
    let x = next_value(c1);
    let b3 = branch_insts(c1, cond, body, exit);
    let sa = with_value(with_value(s));
    let sc = PlanState { status: s.status.update(cur as int, BlockState::Filled), ..sa };
    lemma_run_three(s, b3[0], b3[1], b3[2], np, nf);
    lemma_run_two(s, b3[0], b3[1], np, nf);
    assert(b3 == seq![b3[0], b3[1], b3[2]]);
    assert(run_from(s, b3, np, nf) == Some(sc));
    assert(pending_in(c.frames, body as nat)) by {
        assert(c.frames == c.frames.drop_last().push(t));
        lemma_pending_push(c.frames.drop_last(), t, body as nat);
    }
    assert(s.status[body as int] == BlockState::Pending);
    lemma_run_push(s, b3, Clif::SwitchTo(body), np, nf);
    let t2 = Frame::While { head, body, exit, in_body: true };
    assert forall|k: int| 0 <= k < c2.stack.len() implies #[trigger] c2.stack[k] < c2.values by {
        assert(c2.stack[k] == c.stack[k]);
    }
    lemma_switch_agrees(c, s, cur, c2, body as nat, true, t2);
    (PlanState { status: sc.status.update(body as int, BlockState::Open), current: Some(body as nat), ..sc }, body as nat)
}

/// Opening a `case`: its merge block; the insertion point stays.
proof fn lemma_case_begin_valid(c: Lctx, s: PlanState, cur: nat, funcs: Seq<Seq<char>>, np: nat) -> (r: (PlanState, nat))
    requires
        agrees(c, s, cur),
        op_step(c, Op::CaseBegin, funcs) is Ok,
        bounded(op_step(c, Op::CaseBegin, funcs)->Ok_0.1),
    ensures ({
        let (q, c2) = op_step(c, Op::CaseBegin, funcs)->Ok_0;
        run_from(s, q, np, funcs.len()) == Some(r.0) && agrees(c2, r.0, r.1)
    }),
{
    let nf = funcs.len();
    let (q, c2) = op_step(c, Op::CaseBegin, funcs)->Ok_0;
    assert(!c.terminated);
    lemma_top_bound(c, 1);
    let m = c.blocks;
    let sb = PlanState { status: s.status.push(BlockState::Pending), ..s };
    lemma_run_one(s, Clif::CreateBlock, np, nf);
    let f = Frame::Case { scrut: c.stack.last(), merge: m as usize, in_arm: false, next: 0 };
    assert(c2.frames == c.frames.push(f));
    lemma_frames_grow(c, s, cur, c2.blocks, c2.values);
    assert forall|b: int| 0 <= b < c2.blocks implies (#[trigger] sb.status[b] == BlockState::Pending <==> pending_in(c2.frames, b as nat)) by {
        lemma_pending_push(c.frames, f, b as nat);
        lemma_pending_range(c, s, cur, b as nat);
    }
    assert forall|b: int| 0 <= b < c2.blocks && b != cur implies #[trigger] sb.status[b] != BlockState::Open by {
        if b < c.blocks {
            assert(sb.status[b] == s.status[b]);
        }
    }
    assert forall|i: int, j: int| 0 <= i < j < c2.frames.len() implies fmax(#[trigger] c2.frames[i]) < fmin(#[trigger] c2.frames[j]) by {
        assert(c2.frames[i] == c.frames[i]);
        if j < c.frames.len() {
            assert(c2.frames[j] == c.frames[j]);
        }
    }
    assert forall|i: int| 0 <= i < c2.frames.len() implies frame_wf(#[trigger] c2.frames[i], c2.blocks, c2.values) by {
        if i < c.frames.len() {
            assert(c2.frames[i] == c.frames[i]);
        }
    }
    assert forall|k: int| 0 <= k < c2.stack.len() implies #[trigger] c2.stack[k] < c2.values by {
        assert(c2.stack[k] == c.stack[k]);
    }
    (sb, cur)
}

} // verus!

verus! {

/// Opening an arm of a `case`: the test of the scrutinee ends the insertion
/// point, and the arm's block is entered; the next test's block is awaited.
proof fn lemma_case_arm_valid(c: Lctx, s: PlanState, cur: nat, v: i64, funcs: Seq<Seq<char>>, np: nat) -> (r: (PlanState, nat))
    requires
        agrees(c, s, cur),
        op_step(c, Op::CaseArm(v), funcs) is Ok,
        bounded(op_step(c, Op::CaseArm(v), funcs)->Ok_0.1),
    ensures ({
        let (q, c2) = op_step(c, Op::CaseArm(v), funcs)->Ok_0;
        run_from(s, q, np, funcs.len()) == Some(r.0) && agrees(c2, r.0, r.1)
    }),
{
    let nf = funcs.len();
    let (q, c2) = op_step(c, Op::CaseArm(v), funcs)->Ok_0;
    assert(!c.terminated);
    let t = c.frames.last();
    let d = c.frames.drop_last();
    assert(c.frames == d.push(t));
    let (scrut, merge) = match t { Frame::Case { scrut, merge, .. } => (scrut, merge), _ => (0, 0) };
    assert(frame_wf(c.frames[c.frames.len() - 1], c.blocks, c.values));
    let x = next_value(c);
    let mt = c.blocks;
    let nx = c.blocks + 1;
    let q1 = seq![Clif::<Seq<char>>::IConst(v), Clif::Compare(Cond::Eq, scrut, x)];
    let q2 = seq![Clif::<Seq<char>>::CreateBlock, Clif::CreateBlock];
    let q3 = seq![Clif::<Seq<char>>::Brif((c.values + 1) as usize, mt as usize, nx as usize), Clif::SwitchTo(mt as usize)];
    assert(q =~= q1 + q2 + q3);
    let sa = with_value(with_value(s));
    let sb = PlanState { status: s.status.push(BlockState::Pending).push(BlockState::Pending), ..sa };
    let sc = PlanState { status: sb.status.update(cur as int, BlockState::Filled), ..sb };
    let sd = PlanState { status: sc.status.update(mt as int, BlockState::Open), current: Some(mt), ..sc };
    lemma_run_two(s, q1[0], q1[1], np, nf);
    assert(run_from(s, q1, np, nf) == Some(sa));
    lemma_run_two(sa, q2[0], q2[1], np, nf);
    assert(run_from(sa, q2, np, nf) == Some(sb));
    lemma_run_two(sb, q3[0], q3[1], np, nf);
    assert(run_from(sb, q3, np, nf) == Some(sd));
    lemma_run_concat(s, q1, q2, np, nf);
    lemma_run_concat(s, q1 + q2, q3, np, nf);
    let t2 = Frame::Case { scrut, merge, in_arm: true, next: nx as usize };
    assert(c2.frames == d.push(t2));
    lemma_frames_grow(c, s, cur, c2.blocks, c2.values);
    assert forall|b: int| 0 <= b < c2.blocks implies (#[trigger] sd.status[b] == BlockState::Pending <==> pending_in(c2.frames, b as nat)) by {
        lemma_pending_push(d, t, b as nat);
        lemma_pending_push(d, t2, b as nat);
        if b >= c.blocks {
            lemma_outer_not_pending(c, s, cur, b as nat);
        }
        if b < c.blocks && b != cur {
            assert(sd.status[b] == s.status[b]);
        }
    }
    assert forall|b: int| 0 <= b < c2.blocks && b != mt implies #[trigger] sd.status[b] != BlockState::Open by {
        if b < c.blocks && b != cur {
            assert(sd.status[b] == s.status[b]);
        }
    }
    assert forall|i: int, j: int| 0 <= i < j < c2.frames.len() implies fmax(#[trigger] c2.frames[i]) < fmin(#[trigger] c2.frames[j]) by {
        assert(c2.frames[i] == c.frames[i]);
        if j < d.len() {
            assert(c2.frames[j] == c.frames[j]);
        } else {
            assert(fmax(c.frames[i]) < fmin(c.frames[c.frames.len() - 1]));
        }
    }
    assert forall|i: int| 0 <= i < c2.frames.len() implies frame_wf(#[trigger] c2.frames[i], c2.blocks, c2.values) by {
        if i < d.len() {
            assert(c2.frames[i] == c.frames[i]);
        }
    }
    (sd, mt)
}

} // verus!

verus! {

/// One operation of the stream is accepted by the builder and keeps the
/// agreement.
proof fn lemma_step_valid(c: Lctx, s: PlanState, cur: nat, op: Op<Seq<char>>, funcs: Seq<Seq<char>>, np: nat) -> (r: (PlanState, nat))
    requires
        agrees(c, s, cur),
        op_step(c, op, funcs) is Ok,
        bounded(op_step(c, op, funcs)->Ok_0.1),
    ensures ({
        let (q, c2) = op_step(c, op, funcs)->Ok_0;
        run_from(s, q, np, funcs.len()) == Some(r.0) && agrees(c2, r.0, r.1)
    }),
{
    let (q, c2) = op_step(c, op, funcs)->Ok_0;
    match op {
        Op::Call(n, k) => {
            assert(!c.terminated);
            lemma_call_valid(c, s, cur, n, k as nat, funcs, np);
            (PlanState { values: c2.values, vars: c2.vars.len(), ..s }, cur)
        },
        Op::Return => {
            lemma_terminator_valid(c, s, cur, op, funcs, np);
            (after_terminator(s, c2, cur), cur)
        },
        Op::TailCall(..) => {
            lemma_terminator_valid(c, s, cur, op, funcs, np);
            (after_terminator(s, c2, cur), cur)
        },
        Op::IfThen => lemma_if_then_valid(c, s, cur, funcs, np),
        Op::WhileHead => lemma_while_head_valid(c, s, cur, funcs, np),
        Op::WhileBody => lemma_while_body_valid(c, s, cur, funcs, np),
        Op::CaseBegin => lemma_case_begin_valid(c, s, cur, funcs, np),
        Op::CaseArm(v) => lemma_case_arm_valid(c, s, cur, v, funcs, np),
        Op::IfElse => lemma_close_valid(c, s, cur, op, funcs, np),
        Op::IfEnd => lemma_close_valid(c, s, cur, op, funcs, np),
        Op::WhileEnd => lemma_close_valid(c, s, cur, op, funcs, np),
        Op::CaseArmEnd => lemma_close_valid(c, s, cur, op, funcs, np),
        Op::CaseEnd => lemma_close_valid(c, s, cur, op, funcs, np),
        _ => {
            lemma_value_valid(c, s, cur, op, funcs, np);
            (PlanState { values: c2.values, vars: c2.vars.len(), ..s }, cur)
        },
    }
}

/// An operation never removes values or blocks, and adds no more of them than
/// it emits instructions.
proof fn lemma_step_counts(c: Lctx, op: Op<Seq<char>>, funcs: Seq<Seq<char>>)
    requires
        op_step(c, op, funcs) is Ok,
    ensures ({
        let (q, c2) = op_step(c, op, funcs)->Ok_0;
        &&& c2.values >= c.values
        &&& c2.blocks >= c.blocks
        &&& c2.values + c2.blocks <= c.values + c.blocks + q.len()
    }),
{
}

proof fn lemma_steps_counts(c0: Lctx, ops: Seq<Op<Seq<char>>>, n: nat, funcs: Seq<Seq<char>>)
    requires
        ops_steps(c0, ops, n, funcs) is Ok,
    ensures ({
        let (p, c) = ops_steps(c0, ops, n, funcs)->Ok_0;
        c.values + c.blocks <= c0.values + c0.blocks + p.len()
    }),
    decreases n,
{
    if n > 0 {
        lemma_steps_counts(c0, ops, (n - 1) as nat, funcs);
        let (p1, c1) = ops_steps(c0, ops, (n - 1) as nat, funcs)->Ok_0;
        lemma_step_counts(c1, ops[n - 1], funcs);
    }
}

/// The operations lowered so far form a plan the builder accepts, in agreement
/// with the lowering state.
proof fn lemma_steps_valid(c0: Lctx, s0: PlanState, cur0: nat, ops: Seq<Op<Seq<char>>>, n: nat, funcs: Seq<Seq<char>>, np: nat)
    -> (r: (PlanState, nat))
    requires
        agrees(c0, s0, cur0),
        ops_steps(c0, ops, n, funcs) is Ok,
        bounded(ops_steps(c0, ops, n, funcs)->Ok_0.1),
    ensures ({
        let (p, c) = ops_steps(c0, ops, n, funcs)->Ok_0;
        run_from(s0, p, np, funcs.len()) == Some(r.0) && agrees(c, r.0, r.1)
    }),
    decreases n,
{
    if n == 0 {
        (s0, cur0)
    } else {
        let (p1, c1) = ops_steps(c0, ops, (n - 1) as nat, funcs)->Ok_0;
        lemma_step_counts(c1, ops[n - 1], funcs);
        let (s1, cur1) = lemma_steps_valid(c0, s0, cur0, ops, (n - 1) as nat, funcs, np);
        let (q, c2) = op_step(c1, ops[n - 1], funcs)->Ok_0;
        let (s2, cur2) = lemma_step_valid(c1, s1, cur1, ops[n - 1], funcs, np);
        lemma_run_concat(s0, p1, q, np, funcs.len());
        (s2, cur2)
    }
}

/// The prologue binds every parameter in the entry block.
proof fn lemma_bindings_valid(s: PlanState, n: nat, np: nat, nf: nat)
    requires
        n <= np <= usize::MAX,
        emitting(s),
        s.params_block == Some(0nat),
    ensures
        run_from(s, param_bindings(n), np, nf) == Some(PlanState { values: s.values + n, vars: s.vars + n, ..s }),
    decreases n,
{
    if n > 0 {
        let m = (n - 1) as nat;
        lemma_bindings_valid(s, m, np, nf);
        let sm = PlanState { values: s.values + m, vars: s.vars + m, ..s };
        let tail = seq![
            Clif::<Seq<char>>::Param(0, m as usize),
            Clif::DeclareVar,
            Clif::DefVar(m as usize, m as usize),
        ];
        lemma_run_concat(s, param_bindings(m), tail, np, nf);
        lemma_run_three(sm, tail[0], tail[1], tail[2], np, nf);
        lemma_run_two(sm, tail[0], tail[1], np, nf);
        assert(tail == seq![tail[0], tail[1], tail[2]]);
    } else {
        assert(param_bindings(0) =~= seq![]);
    }
}

} // verus!

verus! {

proof fn lemma_bindings_len(n: nat)
    ensures
        param_bindings(n).len() == 3 * n,
    decreases n,
{
    if n > 0 {
        lemma_bindings_len((n - 1) as nat);
    }
}

/// The plan of every function body is accepted by the Cranelift builder: each
/// operand is a value already defined, each variable is declared before use,
/// instructions only go into the block being filled, each block is entered
/// once and only after the previous one ended, and at the end every block
/// created ends in exactly one terminator. (The plan must fit in memory: its
/// length is at most `usize::MAX`.)
pub proof fn law_lowered_plans_are_accepted(ops: Seq<Op<Seq<char>>>, params: Seq<Seq<char>>, funcs: Seq<Seq<char>>)
    requires
        lowered(ops, params, funcs) is Ok,
        lowered(ops, params, funcs)->Ok_0.len() <= usize::MAX,
    ensures
        plan_ok(lowered(ops, params, funcs)->Ok_0, params.len(), funcs.len()),
{
    let np = params.len();
    let nf = funcs.len();
    let c0 = entry_ctx(params);
    let (p, c) = ops_steps(c0, ops, ops.len(), funcs)->Ok_0;
    let q = epilogue(c)->Ok_0;
    let plan = lowered(ops, params, funcs)->Ok_0;
    assert(plan == prologue(np) + p + q);
    lemma_bindings_len(np);
    let si = initial_state();
    let pre = seq![Clif::<Seq<char>>::CreateBlock, Clif::SwitchTo(0), Clif::EntryParams(0)];
    let s1 = PlanState { values: 0, vars: 0, status: seq![BlockState::Open], current: Some(0nat), params_block: Some(0nat) };
    lemma_run_three(si, pre[0], pre[1], pre[2], np, nf);
    lemma_run_two(si, pre[0], pre[1], np, nf);
    assert(seq![BlockState::Pending].update(0, BlockState::Open) =~= seq![BlockState::Open]);
    assert(run_from(si, pre, np, nf) == Some(s1));
    lemma_bindings_valid(s1, np, np, nf);
    let s0 = PlanState { values: np, vars: np, ..s1 };
    lemma_run_concat(si, pre, param_bindings(np), np, nf);
    assert(run_from(si, prologue(np), np, nf) == Some(s0));
    assert(agrees(c0, s0, 0));
    lemma_steps_counts(c0, ops, ops.len(), funcs);
    assert(bounded(c));
    let (sf, curf) = lemma_steps_valid(c0, s0, 0, ops, ops.len(), funcs, np);
    lemma_run_concat(si, prologue(np), p, np, nf);
    lemma_run_concat(si, prologue(np) + p, q, np, nf);
    let se = if c.terminated {
        assert(q =~= seq![]);
        sf
    } else {
        lemma_run_two(sf, Clif::IConst(0), Clif::Return(next_value(c)), np, nf);
        PlanState { values: sf.values + 1, status: sf.status.update(curf as int, BlockState::Filled), ..sf }
    };
    assert(run_from(si, plan, np, nf) == Some(se));
    assert forall|b: int| 0 <= b < se.status.len() implies se.status[b] == BlockState::Filled by {
        assert(!pending_in(c.frames, b as nat));
        if b != curf {
            assert(sf.status[b] != BlockState::Open);
            assert(sf.status[b] != BlockState::Pending);
        }
    }
}

} // verus!

verus! {

// ---------------------------------------------------------------------------
// The permission gate on kernel imports.

/// The kernel imports a plan calls, in plan order (one entry per call).
pub open spec fn kernel_calls(p: Seq<Clif<Seq<char>>>) -> Seq<Seq<char>>
    decreases p.len(),
{
    if p.len() == 0 {
        seq![]
    } else {
        let rest = kernel_calls(p.drop_last());
        match p.last() {
            Clif::Call(Callee::Kernel(n)) => rest.push(n),
            Clif::ReturnCall(Callee::Kernel(n)) => rest.push(n),
            _ => rest,
        }
    }
}

/// The principal the kernel calls of the function `fname` are made by: the
/// deployment principal when one is recorded, else the function's name.
pub open spec fn kernel_principal(deployment: Option<Seq<char>>, fname: Seq<char>) -> Seq<char> {
    match deployment {
        Some(d) => d,
        None => fname,
    }
}

/// Whether `principal` may `Call` every symbol of `calls` under `reg` at time `now`.
pub open spec fn all_calls_allowed<E: AuthorizationEngine>(reg: AuthRegistry<E>, principal: Seq<char>, calls: Seq<Seq<char>>, now: u64) -> bool {
    forall|i: int| 0 <= i < calls.len() ==> #[trigger] reg.decision(principal, "Call"@, calls[i], now) == Some(Decision::Allow)
}

/// The `i`-th of `calls` is the first that `principal` may not `Call`.
pub open spec fn first_refusal<E: AuthorizationEngine>(reg: AuthRegistry<E>, principal: Seq<char>, calls: Seq<Seq<char>>, now: u64, i: int) -> bool {
    &&& 0 <= i < calls.len()
    &&& all_calls_allowed(reg, principal, calls.take(i), now)
    &&& reg.decision(principal, "Call"@, calls[i], now) != Some(Decision::Allow)
}

fn kernel_callee(i: &Clif<String>) -> (r: Option<&String>)
    ensures
        match i@ {
            Clif::Call(Callee::Kernel(n)) => r matches Some(x) && x@ == n,
            Clif::ReturnCall(Callee::Kernel(n)) => r matches Some(x) && x@ == n,
            _ => r is None,
        },
{
    match i {
        Clif::Call(Callee::Kernel(n)) => Some(n),
        Clif::ReturnCall(Callee::Kernel(n)) => Some(n),
        _ => None,
    }
}

proof fn lemma_kernel_calls_take(p: Seq<Clif<Seq<char>>>, i: int)
    requires
        0 <= i < p.len(),
    ensures
        kernel_calls(p.take(i + 1)) == match p[i] {
            Clif::Call(Callee::Kernel(n)) => kernel_calls(p.take(i)).push(n),
            Clif::ReturnCall(Callee::Kernel(n)) => kernel_calls(p.take(i)).push(n),
            _ => kernel_calls(p.take(i)),
        },
{
    assert(p.take(i + 1).drop_last() =~= p.take(i));
    assert(p.take(i + 1).last() == p[i]);
}

/// The permission gate of the JIT: every kernel import the plan of the
/// function `fname` calls is checked, in plan order, as a `Call` by
/// [`kernel_principal`]; the program's own functions and the runtime builtins
/// are not gated. The plan passes exactly when every such call is allowed; the
/// first call refused gives the error ([`check`]'s denial for a denied call).
/// The registry's decisions and deployment principal are left as they were.
pub fn authorize_kernel_calls<E: AuthorizationEngine>(
    registry: &mut AuthRegistry<E>,
    fname: &str,
    plan: &Vec<Clif<String>>,
    now: u64,
) -> (r: Result<(), String>)
    ensures
        r is Ok <==> all_calls_allowed(*old(registry), kernel_principal(old(registry).deployment(), fname@), kernel_calls(clifv(plan@)), now),
        r matches Err(m) ==> exists|i: int|
            #[trigger] first_refusal(*old(registry), kernel_principal(old(registry).deployment(), fname@), kernel_calls(clifv(plan@)), now, i)
            && (old(registry).decision(kernel_principal(old(registry).deployment(), fname@), "Call"@, kernel_calls(clifv(plan@))[i], now)
                == Some(Decision::Deny) ==> m@ == denied_message(kernel_principal(old(registry).deployment(), fname@), kernel_calls(clifv(plan@))[i])),
        r matches Err(m) ==> exists|i: int|
            #[trigger] first_refusal(*old(registry), kernel_principal(old(registry).deployment(), fname@), kernel_calls(clifv(plan@)), now, i)
            && (old(registry).decision(kernel_principal(old(registry).deployment(), fname@), "Call"@, kernel_calls(clifv(plan@))[i], now)
                is None ==> m@ == old(registry).failure(kernel_principal(old(registry).deployment(), fname@), "Call"@, kernel_calls(clifv(plan@))[i], now)),
        forall|p: Seq<char>, a: Seq<char>, q: Seq<char>, t: u64| #[trigger] final(registry).decision(p, a, q, t) == old(registry).decision(p, a, q, t),
        forall|p: Seq<char>, a: Seq<char>, q: Seq<char>, t: u64| #[trigger] final(registry).failure(p, a, q, t) == old(registry).failure(p, a, q, t),
        final(registry).deployment() == old(registry).deployment(),
{
    let principal = match deployment_principal(registry) {
        Some(d) => d,
        None => fname.to_owned(),
    };
    let ghost pr = principal@;
    let ghost q = clifv(plan@);
    let ghost start = *registry;
    let mut i: usize = 0;
    while i < plan.len()
        invariant
            i <= plan.len(),
            q == clifv(plan@),
            start == *old(registry),
            pr == principal@,
            pr == kernel_principal(start.deployment(), fname@),
            all_calls_allowed(start, pr, kernel_calls(q.take(i as int)), now),
            forall|p: Seq<char>, a: Seq<char>, x: Seq<char>, t: u64| #[trigger] registry.decision(p, a, x, t) == start.decision(p, a, x, t),
            forall|p: Seq<char>, a: Seq<char>, x: Seq<char>, t: u64| #[trigger] registry.failure(p, a, x, t) == start.failure(p, a, x, t),
            registry.deployment() == start.deployment(),
        decreases plan.len() - i,
    {
        proof { lemma_kernel_calls_take(q, i as int); }
        assert(q[i as int] == plan@[i as int]@);
        if let Some(n) = kernel_callee(&plan[i]) {
            let ghost before = kernel_calls(q.take(i as int));
            let ghost reg0 = *registry;
            proof {
                reveal_strlit("Call");
                assert(reg0.decision(pr, "Call"@, n@, now) == start.decision(pr, "Call"@, n@, now));
                assert(reg0.failure(pr, "Call"@, n@, now) == start.failure(pr, "Call"@, n@, now));
            }
            let outcome = check_at(registry, principal.as_str(), "Call", n.as_str(), now);
            proof {
                assert forall|p: Seq<char>, a: Seq<char>, x: Seq<char>, t: u64| #[trigger] registry.decision(p, a, x, t) == start.decision(p, a, x, t) by {
                    if !reg0.has_engine() {
                        law_no_engine_denies(reg0, p, a, x, t);
                    }
                    assert(reg0.decision(p, a, x, t) == start.decision(p, a, x, t));
                }
                assert forall|p: Seq<char>, a: Seq<char>, x: Seq<char>, t: u64| #[trigger] registry.failure(p, a, x, t) == start.failure(p, a, x, t) by {
                    assert(reg0.failure(p, a, x, t) == start.failure(p, a, x, t));
                }
                assert(registry.deployment() == start.deployment());
            }
            match outcome {
                Ok(()) => {
                    proof {
                        reveal_strlit("Call");
                        let now_calls = kernel_calls(q.take(i + 1));
                        assert(now_calls == before.push(n@));
                        assert forall|j: int| 0 <= j < now_calls.len() implies #[trigger] start.decision(pr, "Call"@, now_calls[j], now) == Some(Decision::Allow) by {
                            if j < before.len() {
                                assert(now_calls[j] == before[j]);
                            }
                        }
                    }
                },
                Err(e) => {
                    proof {
                        let calls = kernel_calls(q);
                        lemma_kernel_calls_prefix(q, i + 1);
                        let now_calls = kernel_calls(q.take(i + 1));
                        assert(now_calls == before.push(n@));
                        assert(calls.take(before.len() as int) =~= before) by {
                            assert(calls.take(now_calls.len() as int) == now_calls);
                        }
                        assert(calls[before.len() as int] == n@) by {
                            assert(calls.take(now_calls.len() as int) == now_calls);
                            assert(calls.take(now_calls.len() as int)[before.len() as int] == calls[before.len() as int]);
                        }
                        reveal_strlit("Call");
                        assert(!all_calls_allowed(start, pr, calls, now)) by {
                            assert(start.decision(pr, "Call"@, calls[before.len() as int], now) != Some(Decision::Allow));
                        }
                        assert(first_refusal(start, pr, calls, now, before.len() as int));
                    }
                    return Err(e);
                },
            }
        }
        i = i + 1;
    }
    proof { assert(q.take(q.len() as int) =~= q); }
    Ok(())
}

/// The kernel calls of a prefix of a plan are a prefix of its kernel calls.
proof fn lemma_kernel_calls_prefix(p: Seq<Clif<Seq<char>>>, i: int)
    requires
        0 <= i <= p.len(),
    ensures
        kernel_calls(p.take(i)).len() <= kernel_calls(p).len(),
        kernel_calls(p).take(kernel_calls(p.take(i)).len() as int) == kernel_calls(p.take(i)),
    decreases p.len() - i,
{
    if i == p.len() {
        assert(p.take(i) =~= p);
        assert(kernel_calls(p).take(kernel_calls(p).len() as int) =~= kernel_calls(p));
    } else {
        lemma_kernel_calls_prefix(p, i + 1);
        lemma_kernel_calls_take(p, i);
        let a = kernel_calls(p.take(i));
        let b = kernel_calls(p.take(i + 1));
        let all = kernel_calls(p);
        assert(all.take(b.len() as int) == b);
        assert(all.take(a.len() as int) =~= b.take(a.len() as int));
        assert(b.take(a.len() as int) =~= a);
    }
}


/// Whether a signed integer comparison holds of `a` and `b`.
pub open spec fn cond_holds(c: Cond, a: int, b: int) -> bool {
    match c {
        Cond::Eq => a == b,
        Cond::Ne => a != b,
        Cond::Lt => a < b,
        Cond::Gt => a > b,
        Cond::Le => a <= b,
        Cond::Ge => a >= b,
    }
}

/// What an integer instruction computes on `a` and `b`.
pub open spec fn arith_value(x: Arith, a: int, b: int) -> int {
    match x {
        Arith::Add => a + b,
        Arith::Sub => a - b,
        Arith::Mul => a * b,
    }
}

/// Lowering keeps each binary operator's meaning: a comparison becomes the
/// comparison that holds exactly when the operator gives 1, any other
/// operator the instruction computing the same value.
pub proof fn law_lowering_keeps_meaning(op: BinOp, a: int, b: int)
    ensures
        match cond_of(op) {
            Some(c) => binop_value(op, a, b) == (if cond_holds(c, a, b) { 1int } else { 0int }),
            None => binop_value(op, a, b) == arith_value(arith_of(op), a, b),
        },
{
}

/// Each comparison operator lowers to the comparison of the same name.
pub proof fn law_comparisons_lower_by_name()
    ensures
        cond_of(BinOp::Lt) == Some(Cond::Lt),
        cond_of(BinOp::Gt) == Some(Cond::Gt),
        cond_of(BinOp::Le) == Some(Cond::Le),
        cond_of(BinOp::Ge) == Some(Cond::Ge),
        cond_of(BinOp::Eq) == Some(Cond::Eq),
        cond_of(BinOp::Ne) == Some(Cond::Ne),
{
}

} // verus!
