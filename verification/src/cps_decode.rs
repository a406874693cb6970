//! Decoding of CPS programs.
//!
//! A CPS program is a magic number, a table of function headers and, for each
//! function, a body of statements and expressions in prefix byte code. The
//! decoder checks a body completely (byte layout, variable scope, callee names)
//! and turns it into a linear stream of [`Op`]s in the order in which the code
//! generator emits them; the code generator then needs no further checks.

use vstd::prelude::*;
use vstd::string::*;
use crate::cps::{CpsReader, le_u32, le_u64, utf8_lossy, eof};
use crate::text::{strings, contains_str, starts_with, hex_fixed, hex_fixed_chars, string_from_chars};
use crate::symbols::{kernel_import, is_kernel_import};

verus! {

/// The binary operators of the expression language.
#[derive(Clone, Copy, Debug, PartialEq, Eq, Structural)]
pub enum BinOp {
    Add,
    Sub,
    Lt,
    Gt,
    Le,
    Ge,
    Eq,
    Ne,
    Mul,
}

/// One step of a decoded function body, in emission order. Expression steps
/// push one value; `Call` and `TailCall` first pop their arguments.
#[derive(Clone, Debug, PartialEq, Eq)]
pub enum Op<S> {
    /// Pushes a constant.
    Const(i64),
    /// Pushes the current value of a variable.
    Var(S),
    /// Pops the given number of arguments and pushes the callee's result.
    Call(S, u32),
    /// Pops two operands and pushes the result.
    Binary(BinOp),
    /// Bitwise complement of the top value.
    Not,
    /// Replaces the top value (an address) by the word stored there.
    Load,
    /// Pops a value into a variable, declaring it on first use.
    Let(S),
    /// Pops a value, then an address, and stores the value there.
    Store,
    /// Discards the top value.
    Drop,
    /// Returns the top value; the rest of the statement list is not decoded.
    Return,
    /// Pops the arguments, calls the function and returns its result.
    TailCall(S, u32),
    /// Pops the condition and starts the `then` branch.
    IfThen,
    /// Ends the `then` branch and starts the `else` branch.
    IfElse,
    /// Ends the `else` branch.
    IfEnd,
    /// Starts a loop; the loop condition follows.
    WhileHead,
    /// Pops the loop condition and starts the loop body.
    WhileBody,
    /// Ends the loop body and jumps back to the condition.
    WhileEnd,
    /// Keeps the scrutinee of a `case` statement (the top value).
    CaseBegin,
    /// Starts the arm taken when the scrutinee equals the constant.
    CaseArm(i64),
    /// Ends an arm.
    CaseArmEnd,
    /// Ends the default arm and the `case` statement, dropping the scrutinee.
    CaseEnd,
}

impl View for Op<String> {
    type V = Op<Seq<char>>;

    open spec fn view(&self) -> Op<Seq<char>> {
        match self {
            Op::Const(v) => Op::Const(*v),
            Op::Var(n) => Op::Var(n@),
            Op::Call(n, k) => Op::Call(n@, *k),
            Op::Binary(b) => Op::Binary(*b),
            Op::Not => Op::Not,
            Op::Load => Op::Load,
            Op::Let(n) => Op::Let(n@),
            Op::Store => Op::Store,
            Op::Drop => Op::Drop,
            Op::Return => Op::Return,
            Op::TailCall(n, k) => Op::TailCall(n@, *k),
            Op::IfThen => Op::IfThen,
            Op::IfElse => Op::IfElse,
            Op::IfEnd => Op::IfEnd,
            Op::WhileHead => Op::WhileHead,
            Op::WhileBody => Op::WhileBody,
            Op::WhileEnd => Op::WhileEnd,
            Op::CaseBegin => Op::CaseBegin,
            Op::CaseArm(v) => Op::CaseArm(*v),
            Op::CaseArmEnd => Op::CaseArmEnd,
            Op::CaseEnd => Op::CaseEnd,
        }
    }
}

/// The views of a stream of operations.
pub open spec fn opsv(v: Seq<Op<String>>) -> Seq<Op<Seq<char>>> {
    v.map_values(|o: Op<String>| o@)
}

proof fn lemma_opsv_push(v: Seq<Op<String>>, o: Op<String>)
    ensures
        opsv(v.push(o)) == opsv(v).push(o@),
{
    assert(opsv(v.push(o)) =~= opsv(v).push(o@));
}

// ---------------------------------------------------------------------------
// The byte format.

/// The `u32` stored at `p`, if four bytes are there.
pub open spec fn u32_at(d: Seq<u8>, p: int) -> Option<int> {
    if 0 <= p && p + 4 <= d.len() {
        Some(le_u32(d.subrange(p, p + 4)))
    } else {
        None
    }
}

/// The `i64` stored at `p`, if eight bytes are there.
pub open spec fn i64_at(d: Seq<u8>, p: int) -> Option<i64> {
    if 0 <= p && p + 8 <= d.len() {
        Some(le_u64(d.subrange(p, p + 8)) as i64)
    } else {
        None
    }
}

/// The length-prefixed string stored at `p` and the position after it.
pub open spec fn str_at(d: Seq<u8>, p: int) -> Option<(Seq<char>, int)> {
    match u32_at(d, p) {
        Some(n) => if p + 4 + n <= d.len() {
            Some((utf8_lossy(d.subrange(p + 4, p + 4 + n)), p + 4 + n))
        } else {
            None
        },
        None => None,
    }
}

/// The length-prefixed block of bytes stored at `p` and the position after it.
pub open spec fn block_at(d: Seq<u8>, p: int) -> Option<(Seq<u8>, int)> {
    match u32_at(d, p) {
        Some(n) => if p + 4 + n <= d.len() {
            Some((d.subrange(p + 4, p + 4 + n), p + 4 + n))
        } else {
            None
        },
        None => None,
    }
}

/// The binary operator an opcode stands for.
pub open spec fn binop_of(op: u8) -> Option<BinOp> {
    if op == 0x05 { Some(BinOp::Add) }
    else if op == 0x06 { Some(BinOp::Sub) }
    else if op == 0x10 { Some(BinOp::Lt) }
    else if op == 0x11 { Some(BinOp::Gt) }
    else if op == 0x12 { Some(BinOp::Le) }
    else if op == 0x13 { Some(BinOp::Ge) }
    else if op == 0x14 { Some(BinOp::Eq) }
    else if op == 0x15 { Some(BinOp::Ne) }
    else if op == 0x18 { Some(BinOp::Mul) }
    else { None }
}

/// Whether a call may name `n`: a function of the program, a runtime builtin
/// (`__…` or `au_…`), or a kernel import; the last two are imported on first
/// use.
pub open spec fn callable(n: Seq<char>, funcs: Seq<Seq<char>>) -> bool {
    funcs.contains(n) || "__"@.is_prefix_of(n) || "au_"@.is_prefix_of(n) || kernel_import(n)
}

pub open spec fn undefined_variable_message(n: Seq<char>) -> Seq<char> {
    "Undefined variable: "@ + n
}

pub open spec fn unknown_call_message(n: Seq<char>) -> Seq<char> {
    "Call to unknown function: "@ + n
}

pub open spec fn unknown_tail_call_message(n: Seq<char>) -> Seq<char> {
    "Tail call to unknown function: "@ + n
}

pub open spec fn unknown_opcode_message(op: u8) -> Seq<char> {
    "Unknown opcode: 0x"@ + hex_fixed(op as nat, 2)
}

// ---------------------------------------------------------------------------
// The grammar of expressions: each function decodes from position `p` of `d`,
// with `env` the variables in scope and `funcs` the program's function names,
// and gives the operations and the position after what it decoded.

/// An expression at `p`.
pub open spec fn expr_ops(d: Seq<u8>, p: int, env: Seq<Seq<char>>, funcs: Seq<Seq<char>>)
    -> Result<(Seq<Op<Seq<char>>>, int), Seq<char>>
    decreases d.len() - p, 0int,
{
    if p < 0 || p >= d.len() {
        Err(eof())
    } else {
        let op = d[p];
        if op == 0x01 {
            match i64_at(d, p + 1) {
                Some(v) => Ok((seq![Op::Const(v)], p + 9)),
                None => Err(eof()),
            }
        } else if op == 0x02 {
            match str_at(d, p + 1) {
                Some((n, q)) => if env.contains(n) {
                    Ok((seq![Op::Var(n)], q))
                } else {
                    Err(undefined_variable_message(n))
                },
                None => Err(eof()),
            }
        } else if op == 0x04 {
            match call_ops(d, p + 1, env, funcs) {
                Ok((n, k, a, q)) => if callable(n, funcs) {
                    Ok((a.push(Op::Call(n, k)), q))
                } else {
                    Err(unknown_call_message(n))
                },
                Err(e) => Err(e),
            }
        } else if op == 0x19 || op == 0x20 {
            match expr_ops(d, p + 1, env, funcs) {
                Ok((a, q)) => Ok((a.push(if op == 0x19 { Op::Not } else { Op::Load }), q)),
                Err(e) => Err(e),
            }
        } else {
            match binop_of(op) {
                Some(b) => match expr_ops(d, p + 1, env, funcs) {
                    Ok((a, q)) => if q <= p || q > d.len() {
                        Err(eof())
                    } else {
                        match expr_ops(d, q, env, funcs) {
                            Ok((c, r)) => Ok(((a + c).push(Op::Binary(b)), r)),
                            Err(e) => Err(e),
                        }
                    },
                    Err(e) => Err(e),
                },
                None => Err(unknown_opcode_message(op)),
            }
        }
    }
}

/// `k` expressions at `p`, one after the other.
pub open spec fn args_ops(d: Seq<u8>, p: int, k: int, env: Seq<Seq<char>>, funcs: Seq<Seq<char>>)
    -> Result<(Seq<Op<Seq<char>>>, int), Seq<char>>
    decreases d.len() - p, 1int,
{
    if k <= 0 {
        Ok((seq![], p))
    } else {
        match expr_ops(d, p, env, funcs) {
            Ok((a, q)) => if q <= p || q > d.len() {
                Err(eof())
            } else {
                match args_ops(d, q, k - 1, env, funcs) {
                    Ok((b, r)) => Ok((a + b, r)),
                    Err(e) => Err(e),
                }
            },
            Err(e) => Err(e),
        }
    }
}

/// The part of a call after its opcode: the callee's name, the argument count
/// and the arguments.
pub open spec fn call_ops(d: Seq<u8>, p: int, env: Seq<Seq<char>>, funcs: Seq<Seq<char>>)
    -> Result<(Seq<char>, u32, Seq<Op<Seq<char>>>, int), Seq<char>>
    decreases d.len() - p, 2int,
{
    match str_at(d, p) {
        Some((n, q)) => match u32_at(d, q) {
            Some(k) => match args_ops(d, q + 4, k, env, funcs) {
                Ok((a, r)) => Ok((n, k as u32, a, r)),
                Err(e) => Err(e),
            },
            None => Err(eof()),
        },
        None => Err(eof()),
    }
}

/// `acc` followed by what `r` decoded.
pub open spec fn after(acc: Seq<Op<Seq<char>>>, r: Result<(Seq<Op<Seq<char>>>, int), Seq<char>>)
    -> Result<(Seq<Op<Seq<char>>>, int), Seq<char>> {
    match r {
        Ok((b, q)) => Ok((acc + b, q)),
        Err(e) => Err(e),
    }
}

// ---------------------------------------------------------------------------
// Decoding expressions.

fn binop(op: u8) -> (r: Option<BinOp>)
    ensures
        r == binop_of(op),
{
    if op == 0x05 { Some(BinOp::Add) }
    else if op == 0x06 { Some(BinOp::Sub) }
    else if op == 0x10 { Some(BinOp::Lt) }
    else if op == 0x11 { Some(BinOp::Gt) }
    else if op == 0x12 { Some(BinOp::Le) }
    else if op == 0x13 { Some(BinOp::Ge) }
    else if op == 0x14 { Some(BinOp::Eq) }
    else if op == 0x15 { Some(BinOp::Ne) }
    else if op == 0x18 { Some(BinOp::Mul) }
    else { None }
}

fn is_callable(n: &str, funcs: &Vec<String>) -> (r: bool)
    ensures
        r == callable(n@, strings(funcs@)),
{
    contains_str(funcs, n) || starts_with(n, "__") || starts_with(n, "au_") || is_kernel_import(n)
}

fn message(prefix: &str, n: &str) -> (m: String)
    ensures
        m@ == prefix@ + n@,
{
    let mut m = String::from_str(prefix);
    m.append(n);
    m
}

fn opcode_message(op: u8) -> (m: String)
    ensures
        m@ == unknown_opcode_message(op),
{
    let hex = string_from_chars(hex_fixed_chars(op as u64, 2).as_slice());
    message("Unknown opcode: 0x", hex.as_str())
}

/// Decodes one expression, appending its operations to `out`.
fn decode_expr<'a>(r: &mut CpsReader<'a>, env: &Vec<String>, funcs: &Vec<String>, out: &mut Vec<Op<String>>)
    -> (res: Result<(), String>)
    ensures
        final(r).data() == old(r).data(),
        match expr_ops(old(r).data(), old(r).pos(), strings(env@), strings(funcs@)) {
            Ok((ops, q)) => res is Ok && final(r).pos() == q && opsv(final(out)@) == opsv(old(out)@) + ops
                && old(r).pos() < q <= old(r).data().len(),
            Err(e) => res matches Err(m) && m@ == e,
        },
    decreases old(r).data().len() - old(r).pos(), 0int,
{
    let ghost d = r.data();
    let ghost p = r.pos();
    let ghost o = out@;
    proof { r.lemma_pos_nonneg(); }
    let op = match r.read_u8() {
        Ok(b) => b,
        Err(e) => return Err(e),
    };
    if op == 0x01 {
        let v = match r.read_i64() {
            Ok(v) => v,
            Err(e) => return Err(e),
        };
        proof { lemma_opsv_push(o, Op::Const(v)); assert(opsv(o).push(Op::Const(v)) =~= opsv(o) + seq![Op::Const(v)]); }
        out.push(Op::Const(v));
        Ok(())
    } else if op == 0x02 {
        let n = match r.read_string() {
            Ok(n) => n,
            Err(e) => return Err(e),
        };
        if contains_str(env, n.as_str()) {
            let ghost nv = n@;
            proof { lemma_opsv_push(o, Op::Var(n)); assert(opsv(o).push(Op::Var(nv)) =~= opsv(o) + seq![Op::Var(nv)]); }
            out.push(Op::Var(n));
            Ok(())
        } else {
            Err(message("Undefined variable: ", n.as_str()))
        }
    } else if op == 0x04 {
        let (n, k) = match decode_call(r, env, funcs, out) {
            Ok(x) => x,
            Err(e) => return Err(e),
        };
        if is_callable(n.as_str(), funcs) {
            let ghost o2 = out@;
            let ghost nv = n@;
            proof { lemma_opsv_push(o2, Op::Call(n, k)); }
            out.push(Op::Call(n, k));
            proof {
                let a = match call_ops(d, p + 1, strings(env@), strings(funcs@)) { Ok((_, _, a, _)) => a, Err(_) => seq![] };
                assert(opsv(o2) == opsv(o) + a);
                assert(opsv(out@) =~= opsv(o) + a.push(Op::Call(nv, k)));
            }
            Ok(())
        } else {
            Err(message("Call to unknown function: ", n.as_str()))
        }
    } else if op == 0x19 || op == 0x20 {
        match decode_expr(r, env, funcs, out) {
            Ok(()) => {},
            Err(e) => return Err(e),
        }
        let ghost o2 = out@;
        let last = if op == 0x19 { Op::Not } else { Op::Load };
        proof { lemma_opsv_push(o2, last); }
        out.push(last);
        proof {
            let a = match expr_ops(d, p + 1, strings(env@), strings(funcs@)) { Ok((a, _)) => a, Err(_) => seq![] };
            assert(opsv(out@) =~= opsv(o) + a.push(last@));
        }
        Ok(())
    } else {
        match binop(op) {
            Some(b) => {
                match decode_expr(r, env, funcs, out) {
                    Ok(()) => {},
                    Err(e) => return Err(e),
                }
                let ghost o2 = out@;
                match decode_expr(r, env, funcs, out) {
                    Ok(()) => {},
                    Err(e) => return Err(e),
                }
                let ghost o3 = out@;
                proof { lemma_opsv_push(o3, Op::Binary(b)); }
                out.push(Op::Binary(b));
                proof {
                    let (a, q) = match expr_ops(d, p + 1, strings(env@), strings(funcs@)) { Ok((a, q)) => (a, q), Err(_) => (seq![], 0) };
                    let c = match expr_ops(d, q, strings(env@), strings(funcs@)) { Ok((c, _)) => c, Err(_) => seq![] };
                    assert(opsv(out@) =~= opsv(o) + (a + c).push(Op::Binary(b)));
                }
                Ok(())
            },
            None => Err(opcode_message(op)),
        }
    }
}

/// Decodes the part of a call after its opcode, appending the arguments'
/// operations to `out`, and gives the callee's name and the argument count.
fn decode_call<'a>(r: &mut CpsReader<'a>, env: &Vec<String>, funcs: &Vec<String>, out: &mut Vec<Op<String>>)
    -> (res: Result<(String, u32), String>)
    ensures
        final(r).data() == old(r).data(),
        match call_ops(old(r).data(), old(r).pos(), strings(env@), strings(funcs@)) {
            Ok((n, k, ops, q)) => res matches Ok((name, count)) && name@ == n && count == k
                && final(r).pos() == q && opsv(final(out)@) == opsv(old(out)@) + ops
                && old(r).pos() < q <= old(r).data().len(),
            Err(e) => res matches Err(m) && m@ == e,
        },
    decreases old(r).data().len() - old(r).pos(), 2int,
{
    proof { r.lemma_pos_nonneg(); }
    let n = match r.read_string() {
        Ok(n) => n,
        Err(e) => return Err(e),
    };
    let k = match r.read_u32() {
        Ok(k) => k,
        Err(e) => return Err(e),
    };
    match decode_args(r, k, env, funcs, out) {
        Ok(()) => Ok((n, k)),
        Err(e) => Err(e),
    }
}

/// Decodes `k` expressions, one after the other, appending their operations.
fn decode_args<'a>(r: &mut CpsReader<'a>, k: u32, env: &Vec<String>, funcs: &Vec<String>, out: &mut Vec<Op<String>>)
    -> (res: Result<(), String>)
    ensures
        final(r).data() == old(r).data(),
        match args_ops(old(r).data(), old(r).pos(), k as int, strings(env@), strings(funcs@)) {
            Ok((ops, q)) => res is Ok && final(r).pos() == q && opsv(final(out)@) == opsv(old(out)@) + ops
                && old(r).pos() <= q <= old(r).data().len(),
            Err(e) => res matches Err(m) && m@ == e,
        },
    decreases old(r).data().len() - old(r).pos(), 1int,
{
    let ghost d = r.data();
    let ghost p0 = r.pos();
    let ghost o0 = out@;
    let ghost env_v = strings(env@);
    let ghost funcs_v = strings(funcs@);
    let _ = r.remaining();
    proof { r.lemma_pos_nonneg(); }
    let mut i: u32 = 0;
    let ghost mut acc: Seq<Op<Seq<char>>> = seq![];
    proof {
        assert(after(acc, args_ops(d, p0, k as int, env_v, funcs_v)) == args_ops(d, p0, k as int, env_v, funcs_v)) by {
            match args_ops(d, p0, k as int, env_v, funcs_v) {
                Ok((b, q)) => { assert(acc + b =~= b); },
                Err(_) => {},
            }
        }
    }
    while i < k
        invariant
            i <= k,
            d == old(r).data(),
            p0 == old(r).pos(),
            o0 == old(out)@,
            r.data() == d,
            p0 <= r.pos() <= d.len(),
            opsv(out@) == opsv(o0) + acc,
            env_v == strings(env@),
            funcs_v == strings(funcs@),
            args_ops(d, p0, k as int, env_v, funcs_v) == after(acc, args_ops(d, r.pos(), (k - i) as int, env_v, funcs_v)),
        decreases k - i,
    {
        let ghost p = r.pos();
        let ghost o = out@;
        match decode_expr(r, env, funcs, out) {
            Ok(()) => {},
            Err(e) => return Err(e),
        }
        proof {
            let (a, q) = match expr_ops(d, p, env_v, funcs_v) { Ok((a, q)) => (a, q), Err(_) => (seq![], 0) };
            let rest = args_ops(d, q, (k - i - 1) as int, env_v, funcs_v);
            assert(args_ops(d, p, (k - i) as int, env_v, funcs_v) == after(a, rest));
            match rest {
                Ok((b, q2)) => { assert((acc + a) + b =~= acc + (a + b)); },
                Err(_) => {},
            }
            acc = acc + a;
            assert(opsv(out@) =~= opsv(o0) + acc);
        }
        i = i + 1;
    }
    proof {
        assert(acc + seq![] =~= acc);
    }
    Ok(())
}

// ---------------------------------------------------------------------------
// The grammar of statements. A statement list runs to the end of its bytes or
// up to and including its first `return`; what follows a `return` is never
// decoded. Branch and loop bodies are length-prefixed byte blocks, decoded as
// lists of their own. Every `let` adds its variable to the scope of all that is
// decoded after it, nested blocks included.

/// A statement at `p`: its operations, the position after it, the scope after
/// it, and whether it was a `return`.
pub open spec fn stmt_ops(d: Seq<u8>, p: int, env: Seq<Seq<char>>, funcs: Seq<Seq<char>>)
    -> Result<(Seq<Op<Seq<char>>>, int, Seq<Seq<char>>, bool), Seq<char>>
    decreases d.len(), d.len() - p, 1int,
{
    if p < 0 || p >= d.len() {
        Err(eof())
    } else if d[p] == 0x07 {
        if p + 1 < d.len() && d[p + 1] == 0x04 {
            match call_ops(d, p + 2, env, funcs) {
                Ok((n, k, a, q)) => if callable(n, funcs) {
                    Ok((a.push(Op::TailCall(n, k)), q, env, true))
                } else {
                    Err(unknown_tail_call_message(n))
                },
                Err(e) => Err(e),
            }
        } else {
            match expr_ops(d, p + 1, env, funcs) {
                Ok((a, q)) => Ok((a.push(Op::Return), q, env, true)),
                Err(e) => Err(e),
            }
        }
    } else if d[p] == 0x08 {
        match expr_ops(d, p + 1, env, funcs) {
            Ok((c, q)) => if q <= p || q > d.len() {
                Err(eof())
            } else {
                match block_at(d, q) {
                    Some((tb, q1)) => match block_at(d, q1) {
                        Some((eb, q2)) => match block_ops(tb, 0, env, funcs) {
                            Ok((t, env1)) => match block_ops(eb, 0, env1, funcs) {
                                Ok((e, env2)) => Ok((
                                    c.push(Op::IfThen) + t.push(Op::IfElse) + e.push(Op::IfEnd),
                                    q2,
                                    env2,
                                    false,
                                )),
                                Err(m) => Err(m),
                            },
                            Err(m) => Err(m),
                        },
                        None => Err(eof()),
                    },
                    None => Err(eof()),
                }
            },
            Err(m) => Err(m),
        }
    } else if d[p] == 0x09 {
        match expr_ops(d, p + 1, env, funcs) {
            Ok((c, q)) => if q <= p || q > d.len() {
                Err(eof())
            } else {
                match block_at(d, q) {
                    Some((bb, q1)) => match block_ops(bb, 0, env, funcs) {
                        Ok((b, env1)) => Ok((
                            seq![Op::WhileHead] + c.push(Op::WhileBody) + b.push(Op::WhileEnd),
                            q1,
                            env1,
                            false,
                        )),
                        Err(m) => Err(m),
                    },
                    None => Err(eof()),
                }
            },
            Err(m) => Err(m),
        }
    } else if d[p] == 0x0A {
        match expr_ops(d, p + 1, env, funcs) {
            Ok((c, q)) => if q <= p || q > d.len() {
                Err(eof())
            } else {
                match u32_at(d, q) {
                    Some(n) => match cases_ops(d, q + 4, n, env, funcs) {
                        Ok((arms, r, env1)) => match block_at(d, r) {
                            Some((db, r1)) => match block_ops(db, 0, env1, funcs) {
                                Ok((df, env2)) => Ok((
                                    c.push(Op::CaseBegin) + arms + df.push(Op::CaseEnd),
                                    r1,
                                    env2,
                                    false,
                                )),
                                Err(m) => Err(m),
                            },
                            None => Err(eof()),
                        },
                        Err(m) => Err(m),
                    },
                    None => Err(eof()),
                }
            },
            Err(m) => Err(m),
        }
    } else if d[p] == 0x03 {
        match str_at(d, p + 1) {
            Some((n, q)) => match expr_ops(d, q, env, funcs) {
                Ok((a, r)) => Ok((a.push(Op::Let(n)), r, env.push(n), false)),
                Err(m) => Err(m),
            },
            None => Err(eof()),
        }
    } else if d[p] == 0x30 {
        match expr_ops(d, p + 1, env, funcs) {
            Ok((a, q)) => if q <= p || q > d.len() {
                Err(eof())
            } else {
                match expr_ops(d, q, env, funcs) {
                    Ok((b, r)) => Ok(((a + b).push(Op::Store), r, env, false)),
                    Err(m) => Err(m),
                }
            },
            Err(m) => Err(m),
        }
    } else {
        match expr_ops(d, p, env, funcs) {
            Ok((a, q)) => Ok((a.push(Op::Drop), q, env, false)),
            Err(m) => Err(m),
        }
    }
}

/// `n` arms of a `case` statement at `p`: each a constant and a length-prefixed
/// body.
pub open spec fn cases_ops(d: Seq<u8>, p: int, n: int, env: Seq<Seq<char>>, funcs: Seq<Seq<char>>)
    -> Result<(Seq<Op<Seq<char>>>, int, Seq<Seq<char>>), Seq<char>>
    decreases d.len(), d.len() - p, 0int,
{
    if n <= 0 {
        Ok((seq![], p, env))
    } else {
        match i64_at(d, p) {
            Some(v) => match block_at(d, p + 8) {
                Some((bb, q)) => match block_ops(bb, 0, env, funcs) {
                    Ok((b, env1)) => match cases_ops(d, q, n - 1, env1, funcs) {
                        Ok((rest, r, env2)) => Ok((seq![Op::CaseArm(v)] + b.push(Op::CaseArmEnd) + rest, r, env2)),
                        Err(m) => Err(m),
                    },
                    Err(m) => Err(m),
                },
                None => Err(eof()),
            },
            None => Err(eof()),
        }
    }
}

/// The statement list from `p` to the end of `d` (or its first `return`), and
/// the scope after it.
pub open spec fn block_ops(d: Seq<u8>, p: int, env: Seq<Seq<char>>, funcs: Seq<Seq<char>>)
    -> Result<(Seq<Op<Seq<char>>>, Seq<Seq<char>>), Seq<char>>
    decreases d.len(), d.len() - p, 2int,
{
    if p < 0 || p >= d.len() {
        Ok((seq![], env))
    } else {
        match stmt_ops(d, p, env, funcs) {
            Ok((a, q, env1, done)) => if done {
                Ok((a, env1))
            } else if q <= p || q > d.len() {
                Err(eof())
            } else {
                match block_ops(d, q, env1, funcs) {
                    Ok((b, env2)) => Ok((a + b, env2)),
                    Err(m) => Err(m),
                }
            },
            Err(m) => Err(m),
        }
    }
}

// ---------------------------------------------------------------------------
// Decoding statements.

/// `acc` followed by what a list decoder `r` decoded.
pub open spec fn after_list(acc: Seq<Op<Seq<char>>>, r: Result<(Seq<Op<Seq<char>>>, Seq<Seq<char>>), Seq<char>>)
    -> Result<(Seq<Op<Seq<char>>>, Seq<Seq<char>>), Seq<char>> {
    match r {
        Ok((b, e)) => Ok((acc + b, e)),
        Err(m) => Err(m),
    }
}

/// `acc` followed by what an arm decoder `r` decoded.
pub open spec fn after_arms(acc: Seq<Op<Seq<char>>>, r: Result<(Seq<Op<Seq<char>>>, int, Seq<Seq<char>>), Seq<char>>)
    -> Result<(Seq<Op<Seq<char>>>, int, Seq<Seq<char>>), Seq<char>> {
    match r {
        Ok((b, q, e)) => Ok((acc + b, q, e)),
        Err(m) => Err(m),
    }
}

fn push_op(out: &mut Vec<Op<String>>, o: Op<String>)
    ensures
        opsv(final(out)@) == opsv(old(out)@).push(o@),
{
    proof { lemma_opsv_push(old(out)@, o); }
    out.push(o);
}

/// Decodes one statement, appending its operations and extending the scope;
/// gives whether it was a `return`.
#[verifier::rlimit(60)]
#[verifier::spinoff_prover]
fn decode_stmt<'a>(r: &mut CpsReader<'a>, env: &mut Vec<String>, funcs: &Vec<String>, out: &mut Vec<Op<String>>)
    -> (res: Result<bool, String>)
    ensures
        final(r).data() == old(r).data(),
        match stmt_ops(old(r).data(), old(r).pos(), strings(old(env)@), strings(funcs@)) {
            Ok((ops, q, env2, done)) => res == Ok::<bool, String>(done) && final(r).pos() == q
                && opsv(final(out)@) == opsv(old(out)@) + ops && strings(final(env)@) == env2
                && old(r).pos() < q <= old(r).data().len(),
            Err(e) => res matches Err(m) && m@ == e,
        },
    decreases old(r).data().len(), old(r).data().len() - old(r).pos(), 1int,
{
    let ghost d = r.data();
    let ghost p = r.pos();
    let ghost o = out@;
    let ghost ev = strings(env@);
    let ghost fv = strings(funcs@);
    proof { r.lemma_pos_nonneg(); }
    let op = match r.peek_u8() {
        Some(b) => b,
        None => return Err(String::from_str("EOF")),
    };
    if op == 0x07 {
        let _ = r.read_u8();
        if r.peek_u8() == Some(0x04u8) {
            let _ = r.read_u8();
            let (n, k) = match decode_call(r, env, funcs, out) {
                Ok(x) => x,
                Err(e) => return Err(e),
            };
            if is_callable(n.as_str(), funcs) {
                let ghost o2 = out@;
                let ghost nv = n@;
                push_op(out, Op::TailCall(n, k));
                proof {
                    let a = match call_ops(d, p + 2, ev, fv) { Ok((_, _, a, _)) => a, Err(_) => seq![] };
                    assert(opsv(out@) =~= opsv(o) + a.push(Op::TailCall(nv, k)));
                }
                Ok(true)
            } else {
                Err(message("Tail call to unknown function: ", n.as_str()))
            }
        } else {
            match decode_expr(r, env, funcs, out) {
                Ok(()) => {},
                Err(e) => return Err(e),
            }
            push_op(out, Op::Return);
            proof {
                let a = match expr_ops(d, p + 1, ev, fv) { Ok((a, _)) => a, Err(_) => seq![] };
                assert(opsv(out@) =~= opsv(o) + a.push(Op::Return));
            }
            Ok(true)
        }
    } else if op == 0x08 {
        let _ = r.read_u8();
        match decode_expr(r, env, funcs, out) {
            Ok(()) => {},
            Err(e) => return Err(e),
        }
        let ghost o1 = out@;
        let ghost q = r.pos();
        let tl = match r.read_u32() { Ok(v) => v, Err(e) => return Err(e) };
        let tb = match r.read_bytes(tl as usize) { Ok(b) => b, Err(e) => return Err(e) };
        let el = match r.read_u32() { Ok(v) => v, Err(e) => return Err(e) };
        let eb = match r.read_bytes(el as usize) { Ok(b) => b, Err(e) => return Err(e) };
        push_op(out, Op::IfThen);
        let ghost o2 = out@;
        let ghost e0 = strings(env@);
        let mut tr = CpsReader::new(tb);
        match decode_block(&mut tr, env, funcs, out) {
            Ok(()) => {},
            Err(e) => return Err(e),
        }
        push_op(out, Op::IfElse);
        let ghost o3 = out@;
        let ghost e1 = strings(env@);
        let mut er = CpsReader::new(eb);
        match decode_block(&mut er, env, funcs, out) {
            Ok(()) => {},
            Err(e) => return Err(e),
        }
        push_op(out, Op::IfEnd);
        proof {
            let c = match expr_ops(d, p + 1, ev, fv) { Ok((c, _)) => c, Err(_) => seq![] };
            let t = match block_ops(tb@, 0, e0, fv) { Ok((t, _)) => t, Err(_) => seq![] };
            let e = match block_ops(eb@, 0, e1, fv) { Ok((e, _)) => e, Err(_) => seq![] };
            assert(opsv(out@) =~= opsv(o) + (c.push(Op::IfThen) + t.push(Op::IfElse) + e.push(Op::IfEnd)));
        }
        Ok(false)
    } else if op == 0x09 {
        let _ = r.read_u8();
        push_op(out, Op::WhileHead);
        let ghost o1 = out@;
        match decode_expr(r, env, funcs, out) {
            Ok(()) => {},
            Err(e) => return Err(e),
        }
        let bl = match r.read_u32() { Ok(v) => v, Err(e) => return Err(e) };
        let bb = match r.read_bytes(bl as usize) { Ok(b) => b, Err(e) => return Err(e) };
        push_op(out, Op::WhileBody);
        let mut br = CpsReader::new(bb);
        match decode_block(&mut br, env, funcs, out) {
            Ok(()) => {},
            Err(e) => return Err(e),
        }
        push_op(out, Op::WhileEnd);
        proof {
            let c = match expr_ops(d, p + 1, ev, fv) { Ok((c, _)) => c, Err(_) => seq![] };
            let b = match block_ops(bb@, 0, ev, fv) { Ok((b, _)) => b, Err(_) => seq![] };
            assert(opsv(out@) =~= opsv(o) + (seq![Op::WhileHead] + c.push(Op::WhileBody) + b.push(Op::WhileEnd)));
        }
        Ok(false)
    } else if op == 0x0A {
        let _ = r.read_u8();
        match decode_expr(r, env, funcs, out) {
            Ok(()) => {},
            Err(e) => return Err(e),
        }
        let n = match r.read_u32() { Ok(v) => v, Err(e) => return Err(e) };
        push_op(out, Op::CaseBegin);
        let ghost o1 = out@;
        match decode_cases(r, n, env, funcs, out) {
            Ok(()) => {},
            Err(e) => return Err(e),
        }
        let ghost e1 = strings(env@);
        let dl = match r.read_u32() { Ok(v) => v, Err(e) => return Err(e) };
        let db = match r.read_bytes(dl as usize) { Ok(b) => b, Err(e) => return Err(e) };
        let mut dr = CpsReader::new(db);
        match decode_block(&mut dr, env, funcs, out) {
            Ok(()) => {},
            Err(e) => return Err(e),
        }
        push_op(out, Op::CaseEnd);
        proof {
            let (c, q) = match expr_ops(d, p + 1, ev, fv) { Ok((c, q)) => (c, q), Err(_) => (seq![], 0) };
            let arms = match cases_ops(d, q + 4, n as int, ev, fv) { Ok((a, _, _)) => a, Err(_) => seq![] };
            let df = match block_ops(db@, 0, e1, fv) { Ok((x, _)) => x, Err(_) => seq![] };
            assert(opsv(out@) =~= opsv(o) + (c.push(Op::CaseBegin) + arms + df.push(Op::CaseEnd)));
        }
        Ok(false)
    } else if op == 0x03 {
        let _ = r.read_u8();
        let n = match r.read_string() { Ok(n) => n, Err(e) => return Err(e) };
        match decode_expr(r, env, funcs, out) {
            Ok(()) => {},
            Err(e) => return Err(e),
        }
        let ghost nv = n@;
        let n2 = n.clone();
        push_op(out, Op::Let(n));
        env.push(n2);
        proof {
            let q = match str_at(d, p + 1) { Some((_, q)) => q, None => 0 };
            let a = match expr_ops(d, q, ev, fv) { Ok((a, _)) => a, Err(_) => seq![] };
            assert(opsv(out@) =~= opsv(o) + a.push(Op::Let(nv)));
            assert(strings(env@) =~= ev.push(nv));
        }
        Ok(false)
    } else if op == 0x30 {
        let _ = r.read_u8();
        match decode_expr(r, env, funcs, out) {
            Ok(()) => {},
            Err(e) => return Err(e),
        }
        match decode_expr(r, env, funcs, out) {
            Ok(()) => {},
            Err(e) => return Err(e),
        }
        push_op(out, Op::Store);
        proof {
            let (a, q) = match expr_ops(d, p + 1, ev, fv) { Ok((a, q)) => (a, q), Err(_) => (seq![], 0) };
            let b = match expr_ops(d, q, ev, fv) { Ok((b, _)) => b, Err(_) => seq![] };
            assert(opsv(out@) =~= opsv(o) + (a + b).push(Op::Store));
        }
        Ok(false)
    } else {
        match decode_expr(r, env, funcs, out) {
            Ok(()) => {},
            Err(e) => return Err(e),
        }
        push_op(out, Op::Drop);
        proof {
            let a = match expr_ops(d, p, ev, fv) { Ok((a, _)) => a, Err(_) => seq![] };
            assert(opsv(out@) =~= opsv(o) + a.push(Op::Drop));
        }
        Ok(false)
    }
}

/// Decodes the `n` arms of a `case` statement.
fn decode_cases<'a>(r: &mut CpsReader<'a>, n: u32, env: &mut Vec<String>, funcs: &Vec<String>, out: &mut Vec<Op<String>>)
    -> (res: Result<(), String>)
    ensures
        final(r).data() == old(r).data(),
        match cases_ops(old(r).data(), old(r).pos(), n as int, strings(old(env)@), strings(funcs@)) {
            Ok((ops, q, env2)) => res is Ok && final(r).pos() == q && opsv(final(out)@) == opsv(old(out)@) + ops
                && strings(final(env)@) == env2 && old(r).pos() <= q <= old(r).data().len(),
            Err(e) => res matches Err(m) && m@ == e,
        },
    decreases old(r).data().len(), old(r).data().len() - old(r).pos(), 0int,
{
    let ghost d = r.data();
    let ghost p0 = r.pos();
    let ghost o0 = out@;
    let ghost fv = strings(funcs@);
    let _ = r.remaining();
    proof { r.lemma_pos_nonneg(); }
    let mut i: u32 = 0;
    let ghost mut acc: Seq<Op<Seq<char>>> = seq![];
    proof {
        match cases_ops(d, p0, n as int, strings(env@), fv) {
            Ok((b, q, e)) => { assert(acc + b =~= b); },
            Err(_) => {},
        }
    }
    while i < n
        invariant
            i <= n,
            d == old(r).data(),
            p0 == old(r).pos(),
            o0 == old(out)@,
            r.data() == d,
            p0 <= r.pos() <= d.len(),
            opsv(out@) == opsv(o0) + acc,
            fv == strings(funcs@),
            cases_ops(d, p0, n as int, strings(old(env)@), fv)
                == after_arms(acc, cases_ops(d, r.pos(), (n - i) as int, strings(env@), fv)),
        decreases n - i,
    {
        let ghost p = r.pos();
        let ghost o = out@;
        let ghost ev = strings(env@);
        proof { r.lemma_pos_nonneg(); }
        let v = match r.read_i64() { Ok(v) => v, Err(e) => return Err(e) };
        let bl = match r.read_u32() { Ok(v) => v, Err(e) => return Err(e) };
        let bb = match r.read_bytes(bl as usize) { Ok(b) => b, Err(e) => return Err(e) };
        push_op(out, Op::CaseArm(v));
        let mut br = CpsReader::new(bb);
        match decode_block(&mut br, env, funcs, out) {
            Ok(()) => {},
            Err(e) => return Err(e),
        }
        push_op(out, Op::CaseArmEnd);
        proof {
            let b = match block_ops(bb@, 0, ev, fv) { Ok((b, _)) => b, Err(_) => seq![] };
            let arm = seq![Op::CaseArm(v)] + b.push(Op::CaseArmEnd);
            assert(opsv(out@) =~= opsv(o) + arm);
            let rest = cases_ops(d, r.pos(), (n - i - 1) as int, strings(env@), fv);
            assert(cases_ops(d, p, (n - i) as int, ev, fv) == after_arms(arm, rest));
            match rest {
                Ok((x, _, _)) => { assert((acc + arm) + x =~= acc + (arm + x)); },
                Err(_) => {},
            }
            acc = acc + arm;
            assert(opsv(out@) =~= opsv(o0) + acc);
        }
        i = i + 1;
    }
    proof { assert(acc + seq![] =~= acc); }
    Ok(())
}

/// Decodes a statement list up to the end of the reader's bytes or its first
/// `return`.
fn decode_block<'a>(r: &mut CpsReader<'a>, env: &mut Vec<String>, funcs: &Vec<String>, out: &mut Vec<Op<String>>)
    -> (res: Result<(), String>)
    ensures
        match block_ops(old(r).data(), old(r).pos(), strings(old(env)@), strings(funcs@)) {
            Ok((ops, env2)) => res is Ok && opsv(final(out)@) == opsv(old(out)@) + ops && strings(final(env)@) == env2,
            Err(e) => res matches Err(m) && m@ == e,
        },
    decreases old(r).data().len(), old(r).data().len() - old(r).pos(), 2int,
{
    let ghost d = r.data();
    let ghost p0 = r.pos();
    let ghost o0 = out@;
    let ghost fv = strings(funcs@);
    proof { r.lemma_pos_nonneg(); }
    let ghost mut acc: Seq<Op<Seq<char>>> = seq![];
    proof {
        match block_ops(d, p0, strings(env@), fv) {
            Ok((b, e)) => { assert(acc + b =~= b); },
            Err(_) => {},
        }
    }
    while r.remaining() > 0
        invariant
            d == old(r).data(),
            p0 == old(r).pos(),
            o0 == old(out)@,
            r.data() == d,
            p0 <= r.pos(),
            opsv(out@) == opsv(o0) + acc,
            fv == strings(funcs@),
            block_ops(d, p0, strings(old(env)@), fv) == after_list(acc, block_ops(d, r.pos(), strings(env@), fv)),
        decreases d.len() - r.pos(),
    {
        let ghost p = r.pos();
        let ghost o = out@;
        let ghost ev = strings(env@);
        proof { r.lemma_pos_nonneg(); }
        let done = match decode_stmt(r, env, funcs, out) {
            Ok(b) => b,
            Err(e) => return Err(e),
        };
        proof {
            let (a, q, e1) = match stmt_ops(d, p, ev, fv) { Ok((a, q, e1, _)) => (a, q, e1), Err(_) => (seq![], 0, ev) };
            if done {
                assert(block_ops(d, p, ev, fv) == Ok::<(Seq<Op<Seq<char>>>, Seq<Seq<char>>), Seq<char>>((a, e1)));
            } else {
                let rest = block_ops(d, q, e1, fv);
                assert(block_ops(d, p, ev, fv) == after_list(a, rest));
                match rest {
                    Ok((x, _)) => { assert((acc + a) + x =~= acc + (a + x)); },
                    Err(_) => {},
                }
            }
            acc = acc + a;
        }
        if done {
            return Ok(());
        }
    }
    proof { assert(acc + seq![] =~= acc); }
    Ok(())
}

// ---------------------------------------------------------------------------
// Programs: the magic number, the function count, then each function's header
// (name, parameter names, return type tag) and length-prefixed body.

/// The magic number that opens a version-1 CPS program ("CPS1" read as a
/// little-endian `u32`): the function count follows it.
pub const CPS_MAGIC: u32 = 0x43505331;

/// The magic number that opens a version-2 CPS program ("CPS2"): the module's
/// name (a length-prefixed string) follows it, then the function count.
pub const CPS_MAGIC_V2: u32 = 0x43505332;

/// A function header as the decoder reads it; the body stays undecoded.
pub struct FuncHeader<'a> {
    pub name: String,
    pub params: Vec<String>,
    pub ret_type: u8,
    pub body: &'a [u8],
}

/// The mathematical content of a function header.
pub struct HeaderView {
    pub name: Seq<char>,
    pub params: Seq<Seq<char>>,
    pub ret_type: u8,
    pub body: Seq<u8>,
}

impl<'a> View for FuncHeader<'a> {
    type V = HeaderView;

    open spec fn view(&self) -> HeaderView {
        HeaderView { name: self.name@, params: strings(self.params@), ret_type: self.ret_type, body: self.body@ }
    }
}

/// `n` length-prefixed strings at `p`.
pub open spec fn strs_at(d: Seq<u8>, p: int, n: int) -> Option<(Seq<Seq<char>>, int)>
    decreases n,
{
    if n <= 0 {
        Some((seq![], p))
    } else {
        match str_at(d, p) {
            Some((s, q)) => match strs_at(d, q, n - 1) {
                Some((rest, r)) => Some((seq![s] + rest, r)),
                None => None,
            },
            None => None,
        }
    }
}

/// The function header at `p` and the position after it.
pub open spec fn header_at(d: Seq<u8>, p: int) -> Option<(HeaderView, int)> {
    match str_at(d, p) {
        Some((name, q)) => match u32_at(d, q) {
            Some(k) => match strs_at(d, q + 4, k) {
                Some((params, r)) => if 0 <= r < d.len() {
                    match block_at(d, r + 1) {
                        Some((body, s)) => Some((HeaderView { name, params, ret_type: d[r], body }, s)),
                        None => None,
                    }
                } else {
                    None
                },
                None => None,
            },
            None => None,
        },
        None => None,
    }
}

/// `n` function headers at `p`.
pub open spec fn headers_at(d: Seq<u8>, p: int, n: int) -> Option<(Seq<HeaderView>, int)>
    decreases n,
{
    if n <= 0 {
        Some((seq![], p))
    } else {
        match header_at(d, p) {
            Some((h, q)) => match headers_at(d, q, n - 1) {
                Some((rest, r)) => Some((seq![h] + rest, r)),
                None => None,
            },
            None => None,
        }
    }
}

pub open spec fn invalid_magic_message(m: int) -> Seq<char> {
    "Invalid magic: 0x"@ + hex_fixed(m as nat, 8)
}

/// The function count at `p` and the headers after it.
pub open spec fn header_table(d: Seq<u8>, p: int) -> Result<Seq<HeaderView>, Seq<char>> {
    match u32_at(d, p) {
        Some(n) => match headers_at(d, p + 4, n) {
            Some((hs, _)) => Ok(hs),
            None => Err(eof()),
        },
        None => Err(eof()),
    }
}

/// The headers of the program `d`: every read past the end is `EOF`, and a
/// magic number other than the two versions' is refused first. A version-2
/// program's module name is skipped.
pub open spec fn program_headers(d: Seq<u8>) -> Result<Seq<HeaderView>, Seq<char>> {
    match u32_at(d, 0) {
        Some(m) => if m == CPS_MAGIC {
            header_table(d, 4)
        } else if m == CPS_MAGIC_V2 {
            match str_at(d, 4) {
                Some((_, q)) => header_table(d, q),
                None => Err(eof()),
            }
        } else {
            Err(invalid_magic_message(m))
        },
        None => Err(eof()),
    }
}

/// The operations of a function body with parameters `params`, in a program
/// whose functions are named `funcs`.
pub open spec fn body_ops(body: Seq<u8>, params: Seq<Seq<char>>, funcs: Seq<Seq<char>>)
    -> Result<Seq<Op<Seq<char>>>, Seq<char>> {
    match block_ops(body, 0, params, funcs) {
        Ok((ops, _)) => Ok(ops),
        Err(m) => Err(m),
    }
}

proof fn lemma_strs_at_step(d: Seq<u8>, p: int, n: int, acc: Seq<Seq<char>>, s: Seq<char>, q: int)
    requires
        n > 0,
        str_at(d, p) == Some((s, q)),
    ensures
        match strs_at(d, q, n - 1) {
            Some((rest, r)) => strs_at(d, p, n) == Some((seq![s] + rest, r))
                && (acc.push(s)) + rest == acc + (seq![s] + rest),
            None => strs_at(d, p, n) is None,
        },
{
    match strs_at(d, q, n - 1) {
        Some((rest, r)) => { assert(acc.push(s) + rest =~= acc + (seq![s] + rest)); },
        None => {},
    }
}

fn read_strings<'a>(r: &mut CpsReader<'a>, n: u32) -> (res: Result<Vec<String>, String>)
    ensures
        final(r).data() == old(r).data(),
        match strs_at(old(r).data(), old(r).pos(), n as int) {
            Some((ss, q)) => res matches Ok(v) && strings(v@) == ss && final(r).pos() == q,
            None => res matches Err(m) && m@ == eof(),
        },
{
    let ghost d = r.data();
    let ghost p0 = r.pos();
    proof { r.lemma_pos_nonneg(); }
    let mut v: Vec<String> = Vec::new();
    let mut i: u32 = 0;
    while i < n
        invariant
            i <= n,
            d == old(r).data(),
            p0 == old(r).pos(),
            r.data() == d,
            r.pos() >= 0,
            strs_at(d, p0, n as int) == (match strs_at(d, r.pos(), (n - i) as int) {
                Some((rest, q)) => Some((strings(v@) + rest, q)),
                None => None,
            }),
        decreases n - i,
    {
        let ghost p = r.pos();
        let ghost vv = strings(v@);
        let s = match r.read_string() {
            Ok(s) => s,
            Err(e) => {
                proof { assert(strs_at(d, p, (n - i) as int) is None); }
                return Err(e);
            },
        };
        proof {
            lemma_strs_at_step(d, p, (n - i) as int, vv, s@, r.pos());
            r.lemma_pos_nonneg();
        }
        v.push(s);
        proof { assert(strings(v@) =~= vv.push(s@)); }
        i = i + 1;
    }
    proof { assert(strings(v@) + seq![] =~= strings(v@)); }
    Ok(v)
}

fn read_header<'a>(r: &mut CpsReader<'a>) -> (res: Result<FuncHeader<'a>, String>)
    ensures
        final(r).data() == old(r).data(),
        match header_at(old(r).data(), old(r).pos()) {
            Some((h, q)) => res matches Ok(x) && x@ == h && final(r).pos() == q,
            None => res matches Err(m) && m@ == eof(),
        },
{
    proof { r.lemma_pos_nonneg(); }
    let name = match r.read_string() { Ok(s) => s, Err(e) => return Err(e) };
    let k = match r.read_u32() { Ok(v) => v, Err(e) => return Err(e) };
    let params = match read_strings(r, k) { Ok(v) => v, Err(e) => return Err(e) };
    proof { r.lemma_pos_nonneg(); }
    let ret_type = match r.read_u8() { Ok(b) => b, Err(e) => return Err(e) };
    let bl = match r.read_u32() { Ok(v) => v, Err(e) => return Err(e) };
    let body = match r.read_bytes(bl as usize) { Ok(b) => b, Err(e) => return Err(e) };
    Ok(FuncHeader { name, params, ret_type, body })
}

fn magic_message(m: u32) -> (s: String)
    ensures
        s@ == invalid_magic_message(m as int),
{
    let hex = string_from_chars(hex_fixed_chars(m as u64, 8).as_slice());
    message("Invalid magic: 0x", hex.as_str())
}

/// Reads the header table of a CPS program. Each header keeps its body
/// undecoded; see [`decode_body`].
pub fn decode_headers<'a>(data: &'a [u8]) -> (res: Result<Vec<FuncHeader<'a>>, String>)
    ensures
        match program_headers(data@) {
            Ok(hs) => res matches Ok(v) && v@.len() == hs.len() && forall|i: int| 0 <= i < hs.len() ==> (#[trigger] v@[i])@ == hs[i],
            Err(e) => res matches Err(m) && m@ == e,
        },
{
    let mut r = CpsReader::new(data);
    let magic = match r.read_u32() { Ok(v) => v, Err(e) => return Err(e) };
    if magic != CPS_MAGIC && magic != CPS_MAGIC_V2 {
        return Err(magic_message(magic));
    }
    let ghost d = data@;
    if magic == CPS_MAGIC_V2 {
        match r.read_string() {
            Ok(_) => {},
            Err(e) => return Err(e),
        }
    }
    proof { r.lemma_pos_nonneg(); }
    let ghost cpos = r.pos();
    assert(program_headers(d) == header_table(d, cpos));
    let n = match r.read_u32() { Ok(v) => v, Err(e) => return Err(e) };
    let ghost start = r.pos();
    proof {
        assert(start == cpos + 4);
        assert(program_headers(d) == (match headers_at(d, start, n as int) {
            Some((hs, _)) => Ok(hs),
            None => Err(eof()),
        }));
    }
    let mut hs: Vec<FuncHeader<'a>> = Vec::new();
    let ghost mut acc: Seq<HeaderView> = seq![];
    let mut i: u32 = 0;
    while i < n
        invariant
            i <= n,
            d == data@,
            r.data() == d,
            r.pos() >= 0,
            program_headers(d) == (match headers_at(d, start, n as int) {
                Some((hs, _)) => Ok(hs),
                None => Err(eof()),
            }),
            hs@.len() == acc.len(),
            forall|j: int| 0 <= j < acc.len() ==> (#[trigger] hs@[j])@ == acc[j],
            headers_at(d, start, n as int) == (match headers_at(d, r.pos(), (n - i) as int) {
                Some((rest, q)) => Some((acc + rest, q)),
                None => None,
            }),
        decreases n - i,
    {
        let ghost p = r.pos();
        let h = match read_header(&mut r) {
            Ok(h) => h,
            Err(e) => return Err(e),
        };
        proof {
            r.lemma_pos_nonneg();
            match headers_at(d, r.pos(), (n - i - 1) as int) {
                Some((rest, q)) => { assert(acc.push(h@) + rest =~= acc + (seq![h@] + rest)); },
                None => {},
            }
            acc = acc.push(h@);
        }
        hs.push(h);
        i = i + 1;
    }
    proof { assert(acc + seq![] =~= acc); }
    Ok(hs)
}

/// The names of the functions declared by `headers`.
pub fn function_names<'a>(headers: &Vec<FuncHeader<'a>>) -> (names: Vec<String>)
    ensures
        names@.len() == headers@.len(),
        forall|i: int| 0 <= i < names@.len() ==> (#[trigger] names@[i])@ == headers@[i].name@,
{
    let mut names: Vec<String> = Vec::new();
    let mut i: usize = 0;
    while i < headers.len()
        invariant
            i <= headers.len(),
            names@.len() == i,
            forall|j: int| 0 <= j < i ==> (#[trigger] names@[j])@ == headers@[j].name@,
        decreases headers.len() - i,
    {
        names.push(headers[i].name.clone());
        i = i + 1;
    }
    names
}

/// Decodes a function body whose parameters are `params`, in a program whose
/// functions are named `funcs`, into the operations the code generator emits.
pub fn decode_body(body: &[u8], params: &Vec<String>, funcs: &Vec<String>) -> (res: Result<Vec<Op<String>>, String>)
    ensures
        match body_ops(body@, strings(params@), strings(funcs@)) {
            Ok(ops) => res matches Ok(v) && opsv(v@) == ops,
            Err(e) => res matches Err(m) && m@ == e,
        },
{
    let mut env: Vec<String> = Vec::new();
    let mut i: usize = 0;
    while i < params.len()
        invariant
            i <= params.len(),
            strings(env@) == strings(params@).take(i as int),
        decreases params.len() - i,
    {
        let ghost before = env@;
        let x = params[i].clone();
        proof { assert(x@ == params@[i as int]@); }
        env.push(x);
        proof {
            assert(strings(env@) =~= strings(before).push(x@));
            assert(strings(params@).take(i as int + 1) =~= strings(params@).take(i as int).push(params@[i as int]@));
        }
        i = i + 1;
    }
    proof { assert(strings(params@).take(params@.len() as int) =~= strings(params@)); }
    let mut out: Vec<Op<String>> = Vec::new();
    let mut r = CpsReader::new(body);
    match decode_block(&mut r, &mut env, funcs, &mut out) {
        Ok(()) => {
            proof { assert(opsv(seq![]) + opsv(out@) =~= opsv(out@)); }
            proof { assert(opsv(Seq::<Op<String>>::empty()) =~= seq![]); }
            Ok(out)
        },
        Err(e) => Err(e),
    }
}

} // verus!

verus! {

/// An expression that opens with a byte that is no opcode is refused with the
/// unknown-opcode error naming that byte, whatever follows it.
pub proof fn law_unknown_opcode_is_refused(d: Seq<u8>, p: int, env: Seq<Seq<char>>, funcs: Seq<Seq<char>>)
    requires
        0 <= p < d.len(),
        d[p] != 0x01 && d[p] != 0x02 && d[p] != 0x04 && d[p] != 0x19 && d[p] != 0x20,
        binop_of(d[p]) is None,
    ensures
        expr_ops(d, p, env, funcs) == Err::<(Seq<Op<Seq<char>>>, int), Seq<char>>(unknown_opcode_message(d[p])),
{
}


/// What a binary operator computes on two integers: the arithmetic result, or
/// 1 when a comparison holds and 0 when it does not.
pub open spec fn binop_value(op: BinOp, a: int, b: int) -> int {
    match op {
        BinOp::Add => a + b,
        BinOp::Sub => a - b,
        BinOp::Mul => a * b,
        BinOp::Lt => if a < b { 1 } else { 0 },
        BinOp::Gt => if a > b { 1 } else { 0 },
        BinOp::Le => if a <= b { 1 } else { 0 },
        BinOp::Ge => if a >= b { 1 } else { 0 },
        BinOp::Eq => if a == b { 1 } else { 0 },
        BinOp::Ne => if a != b { 1 } else { 0 },
    }
}

/// The binary opcodes of the CPS format and what each computes: 0x05 `+`,
/// 0x06 `-`, 0x10 `<`, 0x11 `>`, 0x12 `<=`, 0x13 `>=`, 0x14 `==`, 0x15 `!=`,
/// 0x18 `*` (a comparison gives 1 or 0).
pub open spec fn binary_opcode_value(op: u8, a: int, b: int) -> Option<int> {
    if op == 0x05 { Some(a + b) }
    else if op == 0x06 { Some(a - b) }
    else if op == 0x10 { Some(if a < b { 1int } else { 0int }) }
    else if op == 0x11 { Some(if a > b { 1int } else { 0int }) }
    else if op == 0x12 { Some(if a <= b { 1int } else { 0int }) }
    else if op == 0x13 { Some(if a >= b { 1int } else { 0int }) }
    else if op == 0x14 { Some(if a == b { 1int } else { 0int }) }
    else if op == 0x15 { Some(if a != b { 1int } else { 0int }) }
    else if op == 0x18 { Some(a * b) }
    else { None }
}

/// Each binary opcode decodes to the operator that computes what the opcode
/// stands for, and exactly the binary opcodes decode to an operator.
pub proof fn law_binary_opcodes_decode_to_their_operators(op: u8, a: int, b: int)
    ensures
        binop_of(op) is Some <==> binary_opcode_value(op, a, b) is Some,
        binop_of(op) matches Some(o) ==> binary_opcode_value(op, a, b) == Some(binop_value(o, a, b)),
{
}

/// The opcode table: 0x05 `Add`, 0x06 `Sub`, 0x10 `Lt`, 0x11 `Gt`, 0x12 `Le`,
/// 0x13 `Ge`, 0x14 `Eq`, 0x15 `Ne`, 0x18 `Mul`; no two opcodes share an operator.
pub proof fn law_binary_opcode_table()
    ensures
        binop_of(0x05) == Some(BinOp::Add),
        binop_of(0x06) == Some(BinOp::Sub),
        binop_of(0x10) == Some(BinOp::Lt),
        binop_of(0x11) == Some(BinOp::Gt),
        binop_of(0x12) == Some(BinOp::Le),
        binop_of(0x13) == Some(BinOp::Ge),
        binop_of(0x14) == Some(BinOp::Eq),
        binop_of(0x15) == Some(BinOp::Ne),
        binop_of(0x18) == Some(BinOp::Mul),
        forall|x: u8, y: u8| binop_of(x) is Some && #[trigger] binop_of(x) == #[trigger] binop_of(y) ==> x == y,
{
}

} // verus!
