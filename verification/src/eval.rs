//! The evaluator: walks a function body node by node against a mutable
//! operand stack, the shared memory, and an immutable-per-scope variable
//! environment, threading a control-status signal to give `break` and
//! `continue` their meaning without host exceptions.
//!
//! Every evaluation carries a fuel that shrinks at each nested block, each
//! function call and each loop iteration; a run that exhausts it stops with
//! a fatal error, mirroring the host-stack bound of a tree-walking
//! interpreter. Arithmetic that leaves the machine-word range is fatal too.

use vstd::prelude::*;

use crate::io::{dec_digits, Io};
use crate::memory::{
    range_disjoint_from_free, spec_alloc, spec_extend, spec_remove, MemV, Memory,
};
use crate::parser::{fns_map, fns_view, Program};
use crate::token::{
    mem_op_view, seg_view, strings_view, token_view, CmpOperator, MathOperator, MemOpView,
    MemoryOperation, StackOperation, Token, TokenView,
};

verus! {

use vstd::utf8::{encode_scalar, is_scalar};

/// The control-status signal: `Break` and `Continue` travel up the walk
/// until a loop consumes them.
#[derive(Debug, Clone, Copy, PartialEq, Eq, Structural)]
pub enum Flow {
    Normal,
    Break,
    Continue,
}

/// A fatal run-time error; any one of them aborts the whole run.
#[derive(Debug, Clone, Copy, PartialEq, Eq, Structural)]
pub enum RuntimeError {
    /// A popping operation found the stack empty, or too short.
    StackUnderflow,
    /// An arithmetic result left the machine-word range.
    ArithmeticOverflow,
    /// No free extent is large enough for the request.
    OutOfMemory,
    /// A read or write beyond the written buffer.
    BadAddress,
    /// A free of a range that is empty, unwritten, or overlaps the free list.
    InvalidFree,
    /// A call to a function name the program does not define.
    UnknownFunction,
    /// A reference to a name no enclosing `let` block bound.
    UnboundVariable,
    /// A `putc` of a word that is no Unicode scalar value.
    InvalidChar,
    /// The program has no `main` function.
    MissingMain,
    /// The run exhausted its nesting and iteration budget.
    RecursionLimit,
}

/// The state an evaluation threads along: the operand stack, the memory,
/// the bytes written to the output sink, and the control-status signal.
#[verifier::ext_equal]
pub struct EvalState {
    pub stack: Seq<usize>,
    pub mem: MemV,
    pub out: Seq<u8>,
    pub flow: Flow,
}

/// The association sequence a variable list stands for.
pub open spec fn vars_seq(v: Vec<(String, usize)>) -> Seq<(Seq<char>, usize)> {
    Seq::new(v@.len(), |i: int| (v@[i].0@, v@[i].1))
}

/// The environment an association sequence stands for: entries applied in
/// order, so the last binding of a name wins.
pub open spec fn env_map(s: Seq<(Seq<char>, usize)>) -> Map<Seq<char>, usize>
    decreases s.len(),
{
    if s.len() == 0 {
        Map::empty()
    } else {
        env_map(s.drop_last()).insert(s.last().0, s.last().1)
    }
}

/// The low 32 bits of a machine word, as `putc` reads it.
pub open spec fn low32(w: usize) -> u32 {
    (w as nat % 0x1_0000_0000) as u32
}

/// Binding `let` names in declaration order: the first-declared name takes
/// the word popped first, that is the stack's current top.
pub open spec fn bind_names(
    env: Map<Seq<char>, usize>,
    names: Seq<Seq<char>>,
    stack: Seq<usize>,
) -> Map<Seq<char>, usize>
    decreases names.len(),
{
    if names.len() == 0 {
        env
    } else {
        bind_names(env.insert(names[0], stack.last()), names.drop_first(), stack.drop_last())
    }
}

/// Whether freeing `[a, a + l)` is sound: a non-empty range inside the
/// written buffer that overlaps no free extent.
pub open spec fn free_ok(mem: MemV, a: usize, l: usize) -> bool {
    &&& l >= 1
    &&& a + l <= mem.bytes.len()
    &&& range_disjoint_from_free(mem.free, a as int, l as int)
}

/// Decimal forms joined with a comma and a space.
pub open spec fn dec_join(s: Seq<usize>) -> Seq<u8>
    decreases s.len(),
{
    if s.len() == 0 {
        Seq::empty()
    } else if s.len() == 1 {
        dec_digits(s[0] as nat)
    } else {
        dec_join(s.drop_last()) + seq![44u8, 32u8] + dec_digits(s.last() as nat)
    }
}

/// One free extent, written as a parenthesised pair.
pub open spec fn pair_entry(p: (usize, usize)) -> Seq<u8> {
    seq![40u8] + dec_digits(p.0 as nat) + seq![44u8, 32u8] + dec_digits(p.1 as nat) + seq![41u8]
}

/// Parenthesised pairs joined with a comma and a space.
pub open spec fn pair_join(s: Seq<(usize, usize)>) -> Seq<u8>
    decreases s.len(),
{
    if s.len() == 0 {
        Seq::empty()
    } else if s.len() == 1 {
        pair_entry(s[0])
    } else {
        pair_join(s.drop_last()) + seq![44u8, 32u8] + pair_entry(s.last())
    }
}

/// The bytes of the memory buffer read as words, for the dump.
pub open spec fn bytes_as_words(s: Seq<u8>) -> Seq<usize> {
    Seq::new(s.len(), |i: int| s[i] as usize)
}

/// The structured dump the debug word writes: the stack, the memory bytes
/// and the free list, each bracketed, separated by spaces, then a newline.
pub open spec fn dump_bytes(stack: Seq<usize>, mem: MemV) -> Seq<u8> {
    seq![91u8] + dec_join(stack) + seq![93u8, 32u8, 91u8] + dec_join(bytes_as_words(mem.bytes))
        + seq![93u8, 32u8, 91u8] + pair_join(mem.free) + seq![93u8, 10u8]
}

/// Whether, after this node ran, the walk of the enclosing block stops and
/// hands the control status to its caller.
pub open spec fn stops_walk(t: TokenView, flow: Flow) -> bool {
    match t {
        TokenView::Break => true,
        TokenView::Continue => true,
        TokenView::IfBlock(_, _) => flow != Flow::Normal,
        TokenView::LetBlock(_, _) => flow != Flow::Normal,
        _ => false,
    }
}

/// Arithmetic: pops two words, the second-popped one the left operand, and
/// pushes the result; a result outside the machine-word range is fatal.
pub open spec fn spec_math(op: MathOperator, stack: Seq<usize>) -> Result<Seq<usize>, RuntimeError> {
    if stack.len() < 2 {
        Err(RuntimeError::StackUnderflow)
    } else {
        let b = stack.last();
        let a = stack.drop_last().last();
        let rest = stack.drop_last().drop_last();
        match op {
            MathOperator::Add => if a + b > usize::MAX {
                Err(RuntimeError::ArithmeticOverflow)
            } else {
                Ok(rest.push((a + b) as usize))
            },
            MathOperator::Sub => if a < b {
                Err(RuntimeError::ArithmeticOverflow)
            } else {
                Ok(rest.push((a - b) as usize))
            },
            MathOperator::Mul => if a * b > usize::MAX {
                Err(RuntimeError::ArithmeticOverflow)
            } else {
                Ok(rest.push((a * b) as usize))
            },
        }
    }
}

/// Comparison: pops two words, the second-popped one the left operand, and
/// pushes one for true or zero for false.
pub open spec fn spec_cmp(op: CmpOperator, stack: Seq<usize>) -> Result<Seq<usize>, RuntimeError> {
    if stack.len() < 2 {
        Err(RuntimeError::StackUnderflow)
    } else {
        let b = stack.last();
        let a = stack.drop_last().last();
        let rest = stack.drop_last().drop_last();
        let c = match op {
            CmpOperator::Less => a < b,
            CmpOperator::Greater => a > b,
            CmpOperator::Equal => a == b,
        };
        Ok(rest.push(if c { 1usize } else { 0usize }))
    }
}

/// The pure stack words: duplicate, exchange, copy from below, rotate,
/// discard.
pub open spec fn spec_stack_op(op: StackOperation, stack: Seq<usize>) -> Result<
    Seq<usize>,
    RuntimeError,
> {
    match op {
        StackOperation::Dup => if stack.len() < 1 {
            Err(RuntimeError::StackUnderflow)
        } else {
            Ok(stack.push(stack.last()))
        },
        StackOperation::Swap => if stack.len() < 2 {
            Err(RuntimeError::StackUnderflow)
        } else {
            Ok(stack.drop_last().drop_last().push(stack.last()).push(stack.drop_last().last()))
        },
        StackOperation::Over => if stack.len() < 2 {
            Err(RuntimeError::StackUnderflow)
        } else {
            Ok(stack.push(stack[stack.len() - 2]))
        },
        StackOperation::Rot => if stack.len() < 3 {
            Err(RuntimeError::StackUnderflow)
        } else {
            let a = stack.last();
            let b = stack.drop_last().last();
            let c = stack.drop_last().drop_last().last();
            Ok(stack.drop_last().drop_last().drop_last().push(b).push(a).push(c))
        },
        StackOperation::Drop => if stack.len() < 1 {
            Err(RuntimeError::StackUnderflow)
        } else {
            Ok(stack.drop_last())
        },
    }
}

/// The memory words: push bytes, load, store, free, reserve.
pub open spec fn spec_mem_op(op: MemOpView, stack: Seq<usize>, mem: MemV) -> Result<
    (Seq<usize>, MemV),
    RuntimeError,
> {
    match op {
        MemOpView::PushBytes(data) => match spec_extend(mem, data) {
            None => Err(RuntimeError::OutOfMemory),
            Some((mem2, a)) => Ok((stack.push(a), mem2)),
        },
        MemOpView::LoadByte => if stack.len() < 1 {
            Err(RuntimeError::StackUnderflow)
        } else {
            let a = stack.last();
            if a < mem.bytes.len() {
                Ok((stack.drop_last().push(mem.bytes[a as int] as usize), mem))
            } else {
                Err(RuntimeError::BadAddress)
            }
        },
        MemOpView::StoreByte => if stack.len() < 2 {
            Err(RuntimeError::StackUnderflow)
        } else {
            let v = stack.last();
            let a = stack.drop_last().last();
            let rest = stack.drop_last().drop_last();
            if a < mem.bytes.len() {
                Ok((rest, MemV { bytes: mem.bytes.update(a as int, (v % 256) as u8), ..mem }))
            } else {
                Err(RuntimeError::BadAddress)
            }
        },
        MemOpView::Free => if stack.len() < 2 {
            Err(RuntimeError::StackUnderflow)
        } else {
            let l = stack.last();
            let a = stack.drop_last().last();
            let rest = stack.drop_last().drop_last();
            if free_ok(mem, a, l) {
                Ok((rest, spec_remove(mem, a, l)))
            } else {
                Err(RuntimeError::InvalidFree)
            }
        },
        MemOpView::Alloc => if stack.len() < 1 {
            Err(RuntimeError::StackUnderflow)
        } else {
            let l = stack.last();
            match spec_alloc(mem, l) {
                None => Err(RuntimeError::OutOfMemory),
                Some((mem2, a)) => Ok((stack.drop_last().push(a), mem2)),
            }
        },
    }
}

/// One block of nodes, evaluated in order. A node that sets the control
/// status, or a block construct out of which one escaped, ends the walk
/// early; a function call does not: the walk continues behind it whatever
/// status the callee left.
pub open spec fn eval_seg(
    fns: Map<Seq<char>, Seq<TokenView>>,
    seg: Seq<TokenView>,
    env: Map<Seq<char>, usize>,
    st: EvalState,
    fuel: nat,
) -> Result<EvalState, RuntimeError>
    decreases fuel, 3int, seg.len(),
{
    if seg.len() == 0 {
        Ok(st)
    } else {
        match eval_tok(fns, seg[0], env, st, fuel) {
            Err(e) => Err(e),
            Ok(st2) => if stops_walk(seg[0], st2.flow) {
                Ok(st2)
            } else {
                eval_seg(fns, seg.drop_first(), env, st2, fuel)
            },
        }
    }
}

/// One node. Arithmetic and comparison take the second-popped word as the
/// left operand; every popping operation on a too-short stack is fatal.
pub open spec fn eval_tok(
    fns: Map<Seq<char>, Seq<TokenView>>,
    t: TokenView,
    env: Map<Seq<char>, usize>,
    st: EvalState,
    fuel: nat,
) -> Result<EvalState, RuntimeError>
    decreases fuel, 2int, 0int,
{
    match t {
        TokenView::Push(v) => Ok(EvalState { stack: st.stack.push(v), ..st }),
        TokenView::Math(op) => match spec_math(op, st.stack) {
            Ok(s2) => Ok(EvalState { stack: s2, ..st }),
            Err(e) => Err(e),
        },
        TokenView::Cmp(op) => match spec_cmp(op, st.stack) {
            Ok(s2) => Ok(EvalState { stack: s2, ..st }),
            Err(e) => Err(e),
        },
        TokenView::Stack(op) => match spec_stack_op(op, st.stack) {
            Ok(s2) => Ok(EvalState { stack: s2, ..st }),
            Err(e) => Err(e),
        },
        TokenView::Memory(op) => match spec_mem_op(op, st.stack, st.mem) {
            Ok((s2, m2)) => Ok(EvalState { stack: s2, mem: m2, ..st }),
            Err(e) => Err(e),
        },
        TokenView::FunctionCall(name) => {
            if !fns.dom().contains(name) {
                Err(RuntimeError::UnknownFunction)
            } else if fuel == 0 {
                Err(RuntimeError::RecursionLimit)
            } else {
                eval_seg(fns, fns[name], env, st, (fuel - 1) as nat)
            }
        },
        TokenView::IfBlock(tb, fb) => {
            if st.stack.len() < 1 {
                Err(RuntimeError::StackUnderflow)
            } else if fuel == 0 {
                Err(RuntimeError::RecursionLimit)
            } else {
                let c = st.stack.last();
                let st2 = EvalState { stack: st.stack.drop_last(), ..st };
                eval_seg(
                    fns,
                    if c != 0 {
                        tb
                    } else {
                        fb
                    },
                    env,
                    st2,
                    (fuel - 1) as nat,
                )
            }
        },
        TokenView::LoopBlock(body) => {
            if fuel == 0 {
                Err(RuntimeError::RecursionLimit)
            } else {
                eval_loop(fns, body, env, st, (fuel - 1) as nat)
            }
        },
        TokenView::WhileBlock(cond, body) => {
            if fuel == 0 {
                Err(RuntimeError::RecursionLimit)
            } else {
                eval_while(fns, cond, body, env, st, (fuel - 1) as nat)
            }
        },
        TokenView::Break => Ok(EvalState { flow: Flow::Break, ..st }),
        TokenView::Continue => Ok(EvalState { flow: Flow::Continue, ..st }),
        TokenView::LetBlock(body, names) => {
            if st.stack.len() < names.len() {
                Err(RuntimeError::StackUnderflow)
            } else if fuel == 0 {
                Err(RuntimeError::RecursionLimit)
            } else {
                let env2 = bind_names(env, names, st.stack);
                let st2 = EvalState {
                    stack: st.stack.take(st.stack.len() - names.len()),
                    ..st
                };
                eval_seg(fns, body, env2, st2, (fuel - 1) as nat)
            }
        },
        TokenView::Let(name) => {
            if !env.dom().contains(name) {
                Err(RuntimeError::UnboundVariable)
            } else {
                Ok(EvalState { stack: st.stack.push(env[name]), ..st })
            }
        },
        TokenView::Putc => {
            if st.stack.len() < 1 {
                Err(RuntimeError::StackUnderflow)
            } else {
                let v = low32(st.stack.last());
                if is_scalar(v) {
                    Ok(
                        EvalState {
                            stack: st.stack.drop_last(),
                            out: st.out + encode_scalar(v),
                            ..st
                        },
                    )
                } else {
                    Err(RuntimeError::InvalidChar)
                }
            }
        },
        TokenView::Putu => {
            if st.stack.len() < 1 {
                Err(RuntimeError::StackUnderflow)
            } else {
                Ok(
                    EvalState {
                        stack: st.stack.drop_last(),
                        out: st.out + dec_digits(st.stack.last() as nat),
                        ..st
                    },
                )
            }
        },
        TokenView::Debug => Ok(EvalState { out: st.out + dump_bytes(st.stack, st.mem), ..st }),
    }
}

/// A `loop` block: the body runs again and again; `Continue` restarts it,
/// `Break` ends it, and both reset the status to normal.
pub open spec fn eval_loop(
    fns: Map<Seq<char>, Seq<TokenView>>,
    body: Seq<TokenView>,
    env: Map<Seq<char>, usize>,
    st: EvalState,
    fuel: nat,
) -> Result<EvalState, RuntimeError>
    decreases fuel, 1int, 0int,
{
    if fuel == 0 {
        Err(RuntimeError::RecursionLimit)
    } else {
        match eval_seg(fns, body, env, st, (fuel - 1) as nat) {
            Err(e) => Err(e),
            Ok(st2) => match st2.flow {
                Flow::Continue => eval_loop(
                    fns,
                    body,
                    env,
                    EvalState { flow: Flow::Normal, ..st2 },
                    (fuel - 1) as nat,
                ),
                Flow::Break => Ok(EvalState { flow: Flow::Normal, ..st2 }),
                Flow::Normal => eval_loop(fns, body, env, st2, (fuel - 1) as nat),
            },
        }
    }
}

/// A `while` block: the condition block runs and its top word is popped; a
/// zero ends the loop with the status as it stands, anything else runs the
/// body with the same `Break`/`Continue` handling as a plain loop.
pub open spec fn eval_while(
    fns: Map<Seq<char>, Seq<TokenView>>,
    cond: Seq<TokenView>,
    body: Seq<TokenView>,
    env: Map<Seq<char>, usize>,
    st: EvalState,
    fuel: nat,
) -> Result<EvalState, RuntimeError>
    decreases fuel, 1int, 0int,
{
    if fuel == 0 {
        Err(RuntimeError::RecursionLimit)
    } else {
        match eval_seg(fns, cond, env, st, (fuel - 1) as nat) {
            Err(e) => Err(e),
            Ok(st2) => if st2.stack.len() < 1 {
                Err(RuntimeError::StackUnderflow)
            } else {
                let c = st2.stack.last();
                let st3 = EvalState { stack: st2.stack.drop_last(), ..st2 };
                if c == 0 {
                    Ok(st3)
                } else {
                    match eval_seg(fns, body, env, st3, (fuel - 1) as nat) {
                        Err(e) => Err(e),
                        Ok(st4) => match st4.flow {
                            Flow::Continue => eval_while(
                                fns,
                                cond,
                                body,
                                env,
                                EvalState { flow: Flow::Normal, ..st4 },
                                (fuel - 1) as nat,
                            ),
                            Flow::Break => Ok(EvalState { flow: Flow::Normal, ..st4 }),
                            Flow::Normal => eval_while(fns, cond, body, env, st4, (fuel - 1) as nat),
                        },
                    }
                }
            },
        }
    }
}

/// The state a run starts from: empty stack, fresh memory, the sink as the
/// caller handed it over, normal status.
pub open spec fn init_state(out0: Seq<u8>) -> EvalState {
    EvalState {
        stack: Seq::empty(),
        mem: MemV { bytes: Seq::empty(), free: seq![(0usize, usize::MAX)] },
        out: out0,
        flow: Flow::Normal,
    }
}

/// A whole run: the body of `main` evaluated from a fresh state; a program
/// without `main` fails at once. The result is what the run wrote.
pub open spec fn spec_run(
    fns: Map<Seq<char>, Seq<TokenView>>,
    out0: Seq<u8>,
    fuel: nat,
) -> Result<Seq<u8>, RuntimeError> {
    if !fns.dom().contains("main"@) {
        Err(RuntimeError::MissingMain)
    } else {
        match eval_seg(fns, fns["main"@], Map::empty(), init_state(out0), fuel) {
            Ok(st) => Ok(st.out),
            Err(e) => Err(e),
        }
    }
}

/// The nesting and iteration budget of one run.
pub const RECURSION_LIMIT: u64 = 0xFFFF_FFFF_FFFF_FFFF;

/// A name is in the environment of an association sequence exactly when
/// some entry carries it.
pub proof fn lemma_env_map_dom(s: Seq<(Seq<char>, usize)>, n: Seq<char>)
    ensures
        env_map(s).dom().contains(n) <==> exists|k: int| 0 <= k < s.len() && (#[trigger] s[k]).0 == n,
    decreases s.len(),
{
    if s.len() > 0 {
        lemma_env_map_dom(s.drop_last(), n);
        if env_map(s).dom().contains(n) {
            if s.last().0 == n {
                assert(s[s.len() - 1].0 == n);
            } else {
                let k = choose|k: int|
                    0 <= k < s.drop_last().len() && (#[trigger] s.drop_last()[k]).0 == n;
                assert(s[k].0 == n);
            }
        }
        if exists|k: int| 0 <= k < s.len() && (#[trigger] s[k]).0 == n {
            let k = choose|k: int| 0 <= k < s.len() && (#[trigger] s[k]).0 == n;
            if k < s.len() - 1 {
                assert(s.drop_last()[k].0 == n);
            }
        }
    }
}

/// The environment of an association sequence returns the value of the
/// last entry that carries the name.
pub proof fn lemma_env_map_last(s: Seq<(Seq<char>, usize)>, k: int)
    requires
        0 <= k < s.len(),
        forall|j: int| k < j < s.len() ==> (#[trigger] s[j]).0 != s[k].0,
    ensures
        env_map(s).dom().contains(s[k].0),
        env_map(s)[s[k].0] == s[k].1,
    decreases s.len(),
{
    if k == s.len() - 1 {
    } else {
        assert(s.drop_last()[k] == s[k]);
        lemma_env_map_last(s.drop_last(), k);
        assert(s[s.len() - 1].0 != s[k].0);
    }
}


/// Relies on `char::from_u32`: it converts exactly the Unicode scalar
/// values, to the character with that code point.
#[verifier::external_body]
fn char_from_u32(v: u32) -> (r: Option<char>)
    ensures
        match r {
            Some(c) => is_scalar(v) && c as u32 == v,
            None => !is_scalar(v),
        },
{
    char::from_u32(v)
}

/// The body bound to a function name, from the entry that bound it last.
fn lookup_fn<'a>(functions: &'a Vec<(String, Vec<Token>)>, name: &String) -> (r: Option<
    &'a Vec<Token>,
>)
    ensures
        match r {
            Some(b) => fns_map(fns_view(*functions)).dom().contains(name@) && fns_map(
                fns_view(*functions),
            )[name@] == seg_view(*b),
            None => !fns_map(fns_view(*functions)).dom().contains(name@),
        },
{
    let ghost fv = fns_view(*functions);
    let mut k: usize = functions.len();
    while k > 0
        invariant
            k <= functions@.len(),
            fv == fns_view(*functions),
            forall|j: int| k <= j < fv.len() ==> (#[trigger] fv[j]).0 != name@,
        decreases k,
    {
        k = k - 1;
        if functions[k].0 == *name {
            proof {
                assert(fv[k as int].0 == functions@[k as int].0@);
                assert(fv[k as int].1 == seg_view(functions@[k as int].1));
                crate::parser::lemma_fns_map_last(fv, k as int);
            }
            return Some(&functions[k].1);
        }
        proof {
            assert(fv[k as int].0 == functions@[k as int].0@);
        }
    }
    proof {
        crate::parser::lemma_fns_map_dom(fv, name@);
        if fns_map(fv).dom().contains(name@) {
            let j = choose|j: int| 0 <= j < fv.len() && (#[trigger] fv[j]).0 == name@;
            assert(fv[j].0 != name@);
        }
    }
    None
}

/// The value bound to a `let` name, from the entry that bound it last.
fn lookup_var(variables: &Vec<(String, usize)>, name: &String) -> (r: Option<usize>)
    ensures
        match r {
            Some(v) => env_map(vars_seq(*variables)).dom().contains(name@) && env_map(
                vars_seq(*variables),
            )[name@] == v,
            None => !env_map(vars_seq(*variables)).dom().contains(name@),
        },
{
    let ghost vv = vars_seq(*variables);
    let mut k: usize = variables.len();
    while k > 0
        invariant
            k <= variables@.len(),
            vv == vars_seq(*variables),
            forall|j: int| k <= j < vv.len() ==> (#[trigger] vv[j]).0 != name@,
        decreases k,
    {
        k = k - 1;
        if variables[k].0 == *name {
            proof {
                assert(vv[k as int].0 == variables@[k as int].0@);
                assert(vv[k as int].1 == variables@[k as int].1);
                lemma_env_map_last(vv, k as int);
            }
            return Some(variables[k].1);
        }
        proof {
            assert(vv[k as int].0 == variables@[k as int].0@);
        }
    }
    proof {
        lemma_env_map_dom(vv, name@);
        if env_map(vv).dom().contains(name@) {
            let j = choose|j: int| 0 <= j < vv.len() && (#[trigger] vv[j]).0 == name@;
            assert(vv[j].0 != name@);
        }
    }
    None
}

/// A fresh copy of a variable list, binding for binding.
fn clone_vars(variables: &Vec<(String, usize)>) -> (r: Vec<(String, usize)>)
    ensures
        vars_seq(r) == vars_seq(*variables),
{
    let mut out: Vec<(String, usize)> = Vec::new();
    let mut k: usize = 0;
    while k < variables.len()
        invariant
            k <= variables@.len(),
            out@.len() == k,
            forall|x: int|
                0 <= x < k ==> (#[trigger] out@[x]).0@ == variables@[x].0@ && out@[x].1
                    == variables@[x].1,
        decreases variables@.len() - k,
    {
        out.push((variables[k].0.clone(), variables[k].1));
        k = k + 1;
    }
    proof {
        assert(vars_seq(out) =~~= vars_seq(*variables));
    }
    out
}

/// Writes the words of the stack, in decimal, comma separated.
fn write_word_list(io: &mut Io, s: &Vec<usize>)
    ensures
        final(io)@ == old(io)@ + dec_join(s@),
{
    let mut k: usize = 0;
    proof {
        assert(s@.subrange(0, 0) =~= Seq::<usize>::empty());
        assert(io@ =~= old(io)@ + dec_join(s@.subrange(0, 0)));
    }
    while k < s.len()
        invariant
            k <= s@.len(),
            io@ == old(io)@ + dec_join(s@.subrange(0, k as int)),
        decreases s@.len() - k,
    {
        if k > 0 {
            io.write_byte(44);
            io.write_byte(32);
        }
        io.write_decimal(s[k]);
        proof {
            assert(s@.subrange(0, k as int + 1).drop_last() =~= s@.subrange(0, k as int));
            assert(s@.subrange(0, k as int + 1).last() == s@[k as int]);
            assert(io@ =~= old(io)@ + dec_join(s@.subrange(0, k as int + 1)));
        }
        k = k + 1;
    }
    proof {
        assert(s@.subrange(0, s@.len() as int) =~= s@);
    }
}

/// Writes the bytes of the memory buffer, in decimal, comma separated.
fn write_mem_list(io: &mut Io, s: &Vec<u8>)
    ensures
        final(io)@ == old(io)@ + dec_join(bytes_as_words(s@)),
{
    let ghost w = bytes_as_words(s@);
    let mut k: usize = 0;
    proof {
        assert(w.subrange(0, 0) =~= Seq::<usize>::empty());
        assert(io@ =~= old(io)@ + dec_join(w.subrange(0, 0)));
    }
    while k < s.len()
        invariant
            k <= s@.len(),
            w == bytes_as_words(s@),
            w.len() == s@.len(),
            io@ == old(io)@ + dec_join(w.subrange(0, k as int)),
        decreases s@.len() - k,
    {
        if k > 0 {
            io.write_byte(44);
            io.write_byte(32);
        }
        io.write_decimal(s[k] as usize);
        proof {
            assert(w.subrange(0, k as int + 1).drop_last() =~= w.subrange(0, k as int));
            assert(w.subrange(0, k as int + 1).last() == w[k as int]);
            assert(w[k as int] == s@[k as int] as usize);
            assert(io@ =~= old(io)@ + dec_join(w.subrange(0, k as int + 1)));
        }
        k = k + 1;
    }
    proof {
        assert(w.subrange(0, w.len() as int) =~= w);
    }
}

/// Writes the free extents as parenthesised pairs, comma separated.
fn write_pair_list(io: &mut Io, s: &Vec<(usize, usize)>)
    ensures
        final(io)@ == old(io)@ + pair_join(s@),
{
    let mut k: usize = 0;
    proof {
        assert(s@.subrange(0, 0) =~= Seq::<(usize, usize)>::empty());
        assert(io@ =~= old(io)@ + pair_join(s@.subrange(0, 0)));
    }
    while k < s.len()
        invariant
            k <= s@.len(),
            io@ == old(io)@ + pair_join(s@.subrange(0, k as int)),
        decreases s@.len() - k,
    {
        if k > 0 {
            io.write_byte(44);
            io.write_byte(32);
        }
        let (a, l): (usize, usize) = s[k];
        io.write_byte(40);
        io.write_decimal(a);
        io.write_byte(44);
        io.write_byte(32);
        io.write_decimal(l);
        io.write_byte(41);
        proof {
            assert(s@.subrange(0, k as int + 1).drop_last() =~= s@.subrange(0, k as int));
            assert(s@.subrange(0, k as int + 1).last() == s@[k as int]);
            assert(io@ =~= old(io)@ + pair_join(s@.subrange(0, k as int + 1)));
        }
        k = k + 1;
    }
    proof {
        assert(s@.subrange(0, s@.len() as int) =~= s@);
    }
}

/// Writes the structured dump of the stack and memory state.
fn write_dump(io: &mut Io, stack: &Vec<usize>, memory: &Memory)
    ensures
        final(io)@ == old(io)@ + dump_bytes(stack@, memory@),
{
    io.write_byte(91);
    write_word_list(io, stack);
    io.write_byte(93);
    io.write_byte(32);
    io.write_byte(91);
    write_mem_list(io, memory.buffer());
    io.write_byte(93);
    io.write_byte(32);
    io.write_byte(91);
    write_pair_list(io, memory.free_list());
    io.write_byte(93);
    io.write_byte(10);
    proof {
        assert(io@ =~= old(io)@ + dump_bytes(stack@, memory@));
    }
}


/// One arithmetic word, applied to the operand stack.
fn step_math(op: &MathOperator, stack: &mut Vec<usize>) -> (r: Result<(), RuntimeError>)
    ensures
        match spec_math(*op, old(stack)@) {
            Ok(s2) => r matches Ok(_) && final(stack)@ == s2,
            Err(e) => r matches Err(e2) && e2 == e,
        },
{
    if stack.len() < 2 {
        return Err(RuntimeError::StackUnderflow);
    }
    let ghost pre = stack@;
    let b = stack.pop().unwrap();
    let a = stack.pop().unwrap();
    proof {
        assert(stack@ =~= pre.drop_last().drop_last());
    }
    let result: usize = match op {
        MathOperator::Add => match a.checked_add(b) {
            Some(x) => x,
            None => {
                return Err(RuntimeError::ArithmeticOverflow);
            },
        },
        MathOperator::Sub => match a.checked_sub(b) {
            Some(x) => x,
            None => {
                return Err(RuntimeError::ArithmeticOverflow);
            },
        },
        MathOperator::Mul => match a.checked_mul(b) {
            Some(x) => x,
            None => {
                return Err(RuntimeError::ArithmeticOverflow);
            },
        },
    };
    stack.push(result);
    Ok(())
}

/// One comparison word, applied to the operand stack.
fn step_cmp(op: &CmpOperator, stack: &mut Vec<usize>) -> (r: Result<(), RuntimeError>)
    ensures
        match spec_cmp(*op, old(stack)@) {
            Ok(s2) => r matches Ok(_) && final(stack)@ == s2,
            Err(e) => r matches Err(e2) && e2 == e,
        },
{
    if stack.len() < 2 {
        return Err(RuntimeError::StackUnderflow);
    }
    let ghost pre = stack@;
    let b = stack.pop().unwrap();
    let a = stack.pop().unwrap();
    proof {
        assert(stack@ =~= pre.drop_last().drop_last());
    }
    let c: bool = match op {
        CmpOperator::Less => a < b,
        CmpOperator::Greater => a > b,
        CmpOperator::Equal => a == b,
    };
    stack.push(if c { 1 } else { 0 });
    Ok(())
}

/// One pure stack word, applied to the operand stack.
fn step_stack_op(op: &StackOperation, stack: &mut Vec<usize>) -> (r: Result<(), RuntimeError>)
    ensures
        match spec_stack_op(*op, old(stack)@) {
            Ok(s2) => r matches Ok(_) && final(stack)@ == s2,
            Err(e) => r matches Err(e2) && e2 == e,
        },
{
    let ghost pre = stack@;
    match op {
        StackOperation::Dup => {
            if stack.len() < 1 {
                return Err(RuntimeError::StackUnderflow);
            }
            let top = stack[stack.len() - 1];
            stack.push(top);
        },
        StackOperation::Swap => {
            if stack.len() < 2 {
                return Err(RuntimeError::StackUnderflow);
            }
            let b = stack.pop().unwrap();
            let a = stack.pop().unwrap();
            proof {
                assert(stack@ =~= pre.drop_last().drop_last());
            }
            stack.push(b);
            stack.push(a);
        },
        StackOperation::Over => {
            if stack.len() < 2 {
                return Err(RuntimeError::StackUnderflow);
            }
            let a = stack[stack.len() - 2];
            stack.push(a);
        },
        StackOperation::Rot => {
            if stack.len() < 3 {
                return Err(RuntimeError::StackUnderflow);
            }
            let a = stack.pop().unwrap();
            let b = stack.pop().unwrap();
            let c = stack.pop().unwrap();
            proof {
                assert(stack@ =~= pre.drop_last().drop_last().drop_last());
            }
            stack.push(b);
            stack.push(a);
            stack.push(c);
        },
        StackOperation::Drop => {
            if stack.len() < 1 {
                return Err(RuntimeError::StackUnderflow);
            }
            stack.pop();
        },
    }
    Ok(())
}

/// One memory word, applied to the operand stack and the memory.
fn step_mem_op(op: &MemoryOperation, stack: &mut Vec<usize>, memory: &mut Memory) -> (r: Result<
    (),
    RuntimeError,
>)
    requires
        old(memory).wf(),
    ensures
        final(memory).wf(),
        match spec_mem_op(mem_op_view(*op), old(stack)@, old(memory)@) {
            Ok((s2, m2)) => r matches Ok(_) && final(stack)@ == s2 && final(memory)@ == m2,
            Err(e) => r matches Err(e2) && e2 == e,
        },
{
    let ghost pre = stack@;
    match op {
        MemoryOperation::PushBytes(data) => {
            match memory.find_fit(data.len()) {
                None => {
                    return Err(RuntimeError::OutOfMemory);
                },
                Some(_) => {
                    let address = memory.extend(data.as_slice());
                    stack.push(address);
                },
            }
        },
        MemoryOperation::LoadByte => {
            if stack.len() < 1 {
                return Err(RuntimeError::StackUnderflow);
            }
            let address = stack.pop().unwrap();
            match memory.get(address) {
                None => {
                    return Err(RuntimeError::BadAddress);
                },
                Some(b) => {
                    let value = *b;
                    stack.push(value as usize);
                },
            }
        },
        MemoryOperation::StoreByte => {
            if stack.len() < 2 {
                return Err(RuntimeError::StackUnderflow);
            }
            let value = stack.pop().unwrap();
            let address = stack.pop().unwrap();
            proof {
                assert(stack@ =~= pre.drop_last().drop_last());
            }
            match memory.get(address) {
                None => {
                    return Err(RuntimeError::BadAddress);
                },
                Some(_) => {
                    memory.set(address, (value % 256) as u8);
                },
            }
        },
        MemoryOperation::Free => {
            if stack.len() < 2 {
                return Err(RuntimeError::StackUnderflow);
            }
            let len = stack.pop().unwrap();
            let address = stack.pop().unwrap();
            proof {
                assert(stack@ =~= pre.drop_last().drop_last());
            }
            if len < 1 {
                return Err(RuntimeError::InvalidFree);
            }
            let hw = memory.len();
            let end = match address.checked_add(len) {
                None => {
                    return Err(RuntimeError::InvalidFree);
                },
                Some(e) => e,
            };
            if end > hw {
                return Err(RuntimeError::InvalidFree);
            }
            if !memory.range_is_unallocated(address, len) {
                return Err(RuntimeError::InvalidFree);
            }
            memory.remove(address, len);
        },
        MemoryOperation::Alloc => {
            if stack.len() < 1 {
                return Err(RuntimeError::StackUnderflow);
            }
            let len = stack.pop().unwrap();
            match memory.find_fit(len) {
                None => {
                    return Err(RuntimeError::OutOfMemory);
                },
                Some(_) => {
                    let address = memory.allocate(len);
                    stack.push(address);
                },
            }
        },
    }
    Ok(())
}

impl Program {
    /// Runs the program: evaluates the body of `main` against a fresh
    /// stack, a fresh memory and an empty environment, writing all output
    /// to the given sink. A program without `main` fails at once.
    pub fn interpret(&self, io: &mut Io) -> (r: Result<(), RuntimeError>)
        ensures
            match spec_run(self@, old(io)@, RECURSION_LIMIT as nat) {
                Ok(out2) => r matches Ok(_) && final(io)@ == out2,
                Err(e) => r matches Err(e2) && e2 == e,
            },
    {
        proof {
            crate::parser::lemma_program_view(self);
        }
        let main_name = String::from_str("main");
        let body = match lookup_fn(&self.functions, &main_name) {
            None => {
                return Err(RuntimeError::MissingMain);
            },
            Some(b) => b,
        };
        let mut stack: Vec<usize> = Vec::with_capacity(1000);
        let mut memory = Memory::new();
        let variables: Vec<(String, usize)> = Vec::new();
        let mut status = Flow::Normal;
        proof {
            assert(vars_seq(variables) =~~= Seq::<(Seq<char>, usize)>::empty());
            assert(env_map(vars_seq(variables)) =~= Map::<Seq<char>, usize>::empty());
            assert(EvalState { stack: stack@, mem: memory@, out: io@, flow: status } =~~= init_state(
                old(io)@,
            ));
        }
        let r = self.interpret_segment(
            body,
            &mut stack,
            &mut memory,
            &variables,
            &mut status,
            io,
            RECURSION_LIMIT,
        );
        match r {
            Ok(_) => Ok(()),
            Err(e) => Err(e),
        }
    }


    /// A `loop` block: runs the body again and again, consuming fuel per
    /// iteration; `Continue` restarts it and `Break` ends it, each
    /// resetting the status.
    fn run_loop(
        &self,
        body: &Vec<Token>,
        stack: &mut Vec<usize>,
        memory: &mut Memory,
        variables: &Vec<(String, usize)>,
        status: &mut Flow,
        io: &mut Io,
        fuel: u64,
    ) -> (r: Result<(), RuntimeError>)
        requires
            old(memory).wf(),
        ensures
            final(memory).wf(),
            ({
                let pre = EvalState {
                    stack: old(stack)@,
                    mem: old(memory)@,
                    out: old(io)@,
                    flow: *old(status),
                };
                let post = EvalState {
                    stack: final(stack)@,
                    mem: final(memory)@,
                    out: final(io)@,
                    flow: *final(status),
                };
                match eval_loop(
                    fns_map(fns_view(self.functions)),
                    seg_view(*body),
                    env_map(vars_seq(*variables)),
                    pre,
                    fuel as nat,
                ) {
                    Ok(st2) => r matches Ok(_) && post == st2,
                    Err(e) => r matches Err(e2) && e2 == e,
                }
            }),
        decreases fuel, 0int,
    {
        let ghost fnsv = fns_map(fns_view(self.functions));
        let ghost envv = env_map(vars_seq(*variables));
        let ghost bodyv = seg_view(*body);
        let ghost entry = EvalState {
            stack: old(stack)@,
            mem: old(memory)@,
            out: old(io)@,
            flow: *old(status),
        };
        let mut f: u64 = fuel;
        loop
            invariant_except_break
                f <= fuel,
                fnsv == fns_map(fns_view(self.functions)),
                envv == env_map(vars_seq(*variables)),
                bodyv == seg_view(*body),
                memory.wf(),
                entry == (EvalState {
                    stack: old(stack)@,
                    mem: old(memory)@,
                    out: old(io)@,
                    flow: *old(status),
                }),
                eval_loop(fnsv, bodyv, envv, entry, fuel as nat) == eval_loop(
                    fnsv,
                    bodyv,
                    envv,
                    EvalState { stack: stack@, mem: memory@, out: io@, flow: *status },
                    f as nat,
                ),
            ensures
                memory.wf(),
                entry == (EvalState {
                    stack: old(stack)@,
                    mem: old(memory)@,
                    out: old(io)@,
                    flow: *old(status),
                }),
                eval_loop(fnsv, bodyv, envv, entry, fuel as nat) == Ok::<EvalState, RuntimeError>(
                    EvalState { stack: stack@, mem: memory@, out: io@, flow: *status },
                ),
            decreases f,
        {
            let ghost iter = EvalState { stack: stack@, mem: memory@, out: io@, flow: *status };
            if f == 0 {
                proof {
                    assert(eval_loop(fnsv, bodyv, envv, iter, f as nat) == Err::<
                        EvalState,
                        RuntimeError,
                    >(RuntimeError::RecursionLimit));
                }
                return Err(RuntimeError::RecursionLimit);
            }
            match self.interpret_segment(body, stack, memory, variables, status, io, f - 1) {
                Err(e) => {
                    proof {
                        assert(eval_loop(fnsv, bodyv, envv, iter, f as nat) == Err::<
                            EvalState,
                            RuntimeError,
                        >(e));
                    }
                    return Err(e);
                },
                Ok(_) => {},
            }
            let ghost after = EvalState { stack: stack@, mem: memory@, out: io@, flow: *status };
            proof {
                assert(eval_seg(fnsv, bodyv, envv, iter, (f - 1) as nat) == Ok::<
                    EvalState,
                    RuntimeError,
                >(after));
            }
            match *status {
                Flow::Continue => {
                    *status = Flow::Normal;
                },
                Flow::Break => {
                    *status = Flow::Normal;
                    proof {
                        assert(eval_loop(fnsv, bodyv, envv, iter, f as nat) == Ok::<
                            EvalState,
                            RuntimeError,
                        >(EvalState { stack: stack@, mem: memory@, out: io@, flow: *status }));
                    }
                    break ;
                },
                Flow::Normal => {},
            }
            proof {
                assert(eval_loop(fnsv, bodyv, envv, iter, f as nat) == eval_loop(
                    fnsv,
                    bodyv,
                    envv,
                    EvalState { stack: stack@, mem: memory@, out: io@, flow: *status },
                    (f - 1) as nat,
                ));
            }
            f = f - 1;
        }
        Ok(())
    }

    /// A `while` block: runs the condition, pops its answer, and runs the
    /// body while the answer is non-zero, consuming fuel per iteration.
    fn run_while(
        &self,
        cond: &Vec<Token>,
        body: &Vec<Token>,
        stack: &mut Vec<usize>,
        memory: &mut Memory,
        variables: &Vec<(String, usize)>,
        status: &mut Flow,
        io: &mut Io,
        fuel: u64,
    ) -> (r: Result<(), RuntimeError>)
        requires
            old(memory).wf(),
        ensures
            final(memory).wf(),
            ({
                let pre = EvalState {
                    stack: old(stack)@,
                    mem: old(memory)@,
                    out: old(io)@,
                    flow: *old(status),
                };
                let post = EvalState {
                    stack: final(stack)@,
                    mem: final(memory)@,
                    out: final(io)@,
                    flow: *final(status),
                };
                match eval_while(
                    fns_map(fns_view(self.functions)),
                    seg_view(*cond),
                    seg_view(*body),
                    env_map(vars_seq(*variables)),
                    pre,
                    fuel as nat,
                ) {
                    Ok(st2) => r matches Ok(_) && post == st2,
                    Err(e) => r matches Err(e2) && e2 == e,
                }
            }),
        decreases fuel, 0int,
    {
        let ghost fnsv = fns_map(fns_view(self.functions));
        let ghost envv = env_map(vars_seq(*variables));
        let ghost condv = seg_view(*cond);
        let ghost bodyv = seg_view(*body);
        let ghost entry = EvalState {
            stack: old(stack)@,
            mem: old(memory)@,
            out: old(io)@,
            flow: *old(status),
        };
        let mut f: u64 = fuel;
        loop
            invariant_except_break
                f <= fuel,
                fnsv == fns_map(fns_view(self.functions)),
                envv == env_map(vars_seq(*variables)),
                condv == seg_view(*cond),
                bodyv == seg_view(*body),
                memory.wf(),
                entry == (EvalState {
                    stack: old(stack)@,
                    mem: old(memory)@,
                    out: old(io)@,
                    flow: *old(status),
                }),
                eval_while(fnsv, condv, bodyv, envv, entry, fuel as nat) == eval_while(
                    fnsv,
                    condv,
                    bodyv,
                    envv,
                    EvalState { stack: stack@, mem: memory@, out: io@, flow: *status },
                    f as nat,
                ),
            ensures
                memory.wf(),
                entry == (EvalState {
                    stack: old(stack)@,
                    mem: old(memory)@,
                    out: old(io)@,
                    flow: *old(status),
                }),
                eval_while(fnsv, condv, bodyv, envv, entry, fuel as nat) == Ok::<
                    EvalState,
                    RuntimeError,
                >(EvalState { stack: stack@, mem: memory@, out: io@, flow: *status }),
            decreases f,
        {
            let ghost iter = EvalState { stack: stack@, mem: memory@, out: io@, flow: *status };
            if f == 0 {
                proof {
                    assert(eval_while(fnsv, condv, bodyv, envv, iter, f as nat) == Err::<
                        EvalState,
                        RuntimeError,
                    >(RuntimeError::RecursionLimit));
                }
                return Err(RuntimeError::RecursionLimit);
            }
            match self.interpret_segment(cond, stack, memory, variables, status, io, f - 1) {
                Err(e) => {
                    proof {
                        assert(eval_while(fnsv, condv, bodyv, envv, iter, f as nat) == Err::<
                            EvalState,
                            RuntimeError,
                        >(e));
                    }
                    return Err(e);
                },
                Ok(_) => {},
            }
            let ghost after_cond = EvalState {
                stack: stack@,
                mem: memory@,
                out: io@,
                flow: *status,
            };
            if stack.len() < 1 {
                proof {
                    assert(eval_while(fnsv, condv, bodyv, envv, iter, f as nat) == Err::<
                        EvalState,
                        RuntimeError,
                    >(RuntimeError::StackUnderflow));
                }
                return Err(RuntimeError::StackUnderflow);
            }
            let c = stack.pop().unwrap();
            proof {
                assert(stack@ =~= after_cond.stack.drop_last());
            }
            if c == 0 {
                proof {
                    assert(eval_while(fnsv, condv, bodyv, envv, iter, f as nat) == Ok::<
                        EvalState,
                        RuntimeError,
                    >(EvalState { stack: stack@, mem: memory@, out: io@, flow: *status }));
                }
                break ;
            }
            match self.interpret_segment(body, stack, memory, variables, status, io, f - 1) {
                Err(e) => {
                    proof {
                        assert(eval_while(fnsv, condv, bodyv, envv, iter, f as nat) == Err::<
                            EvalState,
                            RuntimeError,
                        >(e));
                    }
                    return Err(e);
                },
                Ok(_) => {},
            }
            match *status {
                Flow::Continue => {
                    *status = Flow::Normal;
                },
                Flow::Break => {
                    *status = Flow::Normal;
                    proof {
                        assert(eval_while(fnsv, condv, bodyv, envv, iter, f as nat) == Ok::<
                            EvalState,
                            RuntimeError,
                        >(EvalState { stack: stack@, mem: memory@, out: io@, flow: *status }));
                    }
                    break ;
                },
                Flow::Normal => {},
            }
            proof {
                assert(eval_while(fnsv, condv, bodyv, envv, iter, f as nat) == eval_while(
                    fnsv,
                    condv,
                    bodyv,
                    envv,
                    EvalState { stack: stack@, mem: memory@, out: io@, flow: *status },
                    (f - 1) as nat,
                ));
            }
            f = f - 1;
        }
        Ok(())
    }


    /// A `let` block: pops one word per bound name in declaration order,
    /// extends the environment with those bindings, and runs the body in
    /// it.
    fn run_let(
        &self,
        body: &Vec<Token>,
        names: &Vec<String>,
        stack: &mut Vec<usize>,
        memory: &mut Memory,
        variables: &Vec<(String, usize)>,
        status: &mut Flow,
        io: &mut Io,
        fuel: u64,
    ) -> (r: Result<(), RuntimeError>)
        requires
            old(memory).wf(),
        ensures
            final(memory).wf(),
            ({
                let pre = EvalState {
                    stack: old(stack)@,
                    mem: old(memory)@,
                    out: old(io)@,
                    flow: *old(status),
                };
                let post = EvalState {
                    stack: final(stack)@,
                    mem: final(memory)@,
                    out: final(io)@,
                    flow: *final(status),
                };
                let result = if pre.stack.len() < strings_view(*names).len() {
                    Err::<EvalState, RuntimeError>(RuntimeError::StackUnderflow)
                } else {
                    eval_seg(
                        fns_map(fns_view(self.functions)),
                        seg_view(*body),
                        bind_names(
                            env_map(vars_seq(*variables)),
                            strings_view(*names),
                            pre.stack,
                        ),
                        EvalState {
                            stack: pre.stack.take(
                                pre.stack.len() - strings_view(*names).len(),
                            ),
                            ..pre
                        },
                        fuel as nat,
                    )
                };
                match result {
                    Ok(st2) => r matches Ok(_) && post == st2,
                    Err(e) => r matches Err(e2) && e2 == e,
                }
            }),
        decreases fuel, 2int,
    {
        let ghost envv = env_map(vars_seq(*variables));
        if stack.len() < names.len() {
            return Err(RuntimeError::StackUnderflow);
        }
        let ghost namesv = strings_view(*names);
        let ghost stack0 = stack@;
        let mut new_vars = clone_vars(variables);
        let mut k: usize = 0;
        proof {
            assert(stack@ =~= stack0.take(stack0.len() as int));
            assert(namesv.skip(0) =~= namesv);
        }
        while k < names.len()
            invariant
                k <= names@.len(),
                namesv == strings_view(*names),
                namesv.len() == names@.len(),
                stack0.len() >= namesv.len(),
                envv == env_map(vars_seq(*variables)),
                stack@ == stack0.take(stack0.len() - k),
                bind_names(envv, namesv, stack0) == bind_names(
                    env_map(vars_seq(new_vars)),
                    namesv.skip(k as int),
                    stack@,
                ),
            decreases names@.len() - k,
        {
            let ghost pre_stack = stack@;
            let ghost pre_vars = vars_seq(new_vars);
            let v = stack.pop().unwrap();
            new_vars.push((names[k].clone(), v));
            proof {
                assert(stack@ =~= stack0.take(stack0.len() - (k + 1)));
                assert(vars_seq(new_vars).drop_last() =~~= pre_vars);
                assert(vars_seq(new_vars).last() == (names@[k as int]@, v));
                assert(env_map(vars_seq(new_vars)) == env_map(pre_vars).insert(
                    namesv[k as int],
                    v,
                ));
                assert(namesv.skip(k as int)[0] == namesv[k as int]);
                assert(namesv.skip(k as int).drop_first() =~= namesv.skip(k as int + 1));
                assert(pre_stack.last() == v);
                assert(pre_stack.drop_last() =~= stack@);
            }
            k = k + 1;
        }
        proof {
            assert(namesv.skip(namesv.len() as int) =~= Seq::<Seq<char>>::empty());
            assert(env_map(vars_seq(new_vars)) == bind_names(envv, namesv, stack0));
            assert(stack@ =~= stack0.take(stack0.len() - namesv.len()));
        }
        self.interpret_segment(body, stack, memory, &new_vars, status, io, fuel)
    }


    /// One node of a block: performs its effect and says whether the walk
    /// of the enclosing block continues behind it.
    #[verifier::rlimit(100)]
    fn step_token(
        &self,
        t: &Token,
        stack: &mut Vec<usize>,
        memory: &mut Memory,
        variables: &Vec<(String, usize)>,
        status: &mut Flow,
        io: &mut Io,
        fuel: u64,
    ) -> (r: Result<bool, RuntimeError>)
        requires
            old(memory).wf(),
        ensures
            final(memory).wf(),
            ({
                let pre = EvalState {
                    stack: old(stack)@,
                    mem: old(memory)@,
                    out: old(io)@,
                    flow: *old(status),
                };
                let post = EvalState {
                    stack: final(stack)@,
                    mem: final(memory)@,
                    out: final(io)@,
                    flow: *final(status),
                };
                match eval_tok(
                    fns_map(fns_view(self.functions)),
                    token_view(*t),
                    env_map(vars_seq(*variables)),
                    pre,
                    fuel as nat,
                ) {
                    Ok(st2) => r matches Ok(cont) && post == st2 && cont == !stops_walk(
                        token_view(*t),
                        st2.flow,
                    ),
                    Err(e) => r matches Err(e2) && e2 == e,
                }
            }),
        decreases fuel, 0int,
    {
        let ghost fnsv = fns_map(fns_view(self.functions));
        let ghost envv = env_map(vars_seq(*variables));
        let ghost stv = EvalState {
            stack: old(stack)@,
            mem: old(memory)@,
            out: old(io)@,
            flow: *old(status),
        };
        match t {
                Token::Push(value) => {
                    stack.push(*value);
                },
                Token::Math(op) => {
                    match step_math(op, stack) {
                        Err(e) => {
                            return Err(e);
                        },
                        Ok(_) => {},
                    }
                },
                Token::Cmp(op) => {
                    match step_cmp(op, stack) {
                        Err(e) => {
                            return Err(e);
                        },
                        Ok(_) => {},
                    }
                },
                Token::Stack(op) => {
                    match step_stack_op(op, stack) {
                        Err(e) => {
                            return Err(e);
                        },
                        Ok(_) => {},
                    }
                },
                Token::Memory(op) => {
                    match step_mem_op(op, stack, memory) {
                        Err(e) => {
                            return Err(e);
                        },
                        Ok(_) => {},
                    }
                },
                Token::Putc => {
                    if stack.len() < 1 {
                        return Err(RuntimeError::StackUnderflow);
                    }
                    let w = stack.pop().unwrap();
                    let v: u32 = ((w as u64) % 0x1_0000_0000) as u32;
                    proof {
                        assert(v == low32(w));
                    }
                    match char_from_u32(v) {
                        None => {
                            return Err(RuntimeError::InvalidChar);
                        },
                        Some(c) => {
                            let bs = crate::parser::encode_char(c);
                            io.write_bytes(&bs);
                        },
                    }
                },
                Token::Putu => {
                    if stack.len() < 1 {
                        return Err(RuntimeError::StackUnderflow);
                    }
                    let w = stack.pop().unwrap();
                    io.write_decimal(w);
                },
                Token::Debug => {
                    write_dump(io, stack, memory);
                },
                Token::Break => {
                    *status = Flow::Break;
                    return Ok(false);
                },
                Token::Continue => {
                    *status = Flow::Continue;
                    return Ok(false);
                },
                Token::IfBlock(true_block, false_block) => {
                    if stack.len() < 1 {
                        return Err(RuntimeError::StackUnderflow);
                    }
                    let c = stack.pop().unwrap();
                    if fuel == 0 {
                        return Err(RuntimeError::RecursionLimit);
                    }
                    let chosen = if c != 0 {
                        true_block
                    } else {
                        false_block
                    };
                    match self.interpret_segment(
                        chosen,
                        stack,
                        memory,
                        variables,
                        status,
                        io,
                        fuel - 1,
                    ) {
                        Err(e) => {
                            return Err(e);
                        },
                        Ok(_) => {},
                    }
                    match *status {
                        Flow::Normal => {},
                        _ => {
                            return Ok(false);
                        },
                    }
                },
                Token::LoopBlock(body) => {
                    if fuel == 0 {
                        return Err(RuntimeError::RecursionLimit);
                    }
                    match self.run_loop(body, stack, memory, variables, status, io, fuel - 1) {
                        Err(e) => {
                            return Err(e);
                        },
                        Ok(_) => {},
                    }
                },
                Token::WhileBlock(cond, body) => {
                    if fuel == 0 {
                        return Err(RuntimeError::RecursionLimit);
                    }
                    match self.run_while(cond, body, stack, memory, variables, status, io, fuel - 1) {
                        Err(e) => {
                            return Err(e);
                        },
                        Ok(_) => {},
                    }
                },
                Token::FunctionCall(name) => {
                    match lookup_fn(&self.functions, name) {
                        None => {
                            return Err(RuntimeError::UnknownFunction);
                        },
                        Some(body) => {
                            if fuel == 0 {
                                return Err(RuntimeError::RecursionLimit);
                            }
                            match self.interpret_segment(
                                body,
                                stack,
                                memory,
                                variables,
                                status,
                                io,
                                fuel - 1,
                            ) {
                                Err(e) => {
                                    return Err(e);
                                },
                                Ok(_) => {},
                            }
                        },
                    }
                },
                Token::LetBlock(body, names) => {
                    if fuel == 0 {
                        if stack.len() < names.len() {
                            return Err(RuntimeError::StackUnderflow);
                        }
                        return Err(RuntimeError::RecursionLimit);
                    }
                    match self.run_let(body, names, stack, memory, variables, status, io, fuel - 1) {
                        Err(e) => {
                            return Err(e);
                        },
                        Ok(_) => {},
                    }
                    match *status {
                        Flow::Normal => {},
                        _ => {
                            return Ok(false);
                        },
                    }
                },
                Token::Let(name) => {
                    match lookup_var(variables, name) {
                        None => {
                            return Err(RuntimeError::UnboundVariable);
                        },
                        Some(v) => {
                            stack.push(v);
                        },
                    }
                },
            }

        Ok(true)
    }

    /// Walks one block of nodes against the given stack, memory,
    /// environment and sink, updating the control status as `break` and
    /// `continue` demand. `fuel` bounds nesting and loop iterations.
    #[verifier::rlimit(100)]
    fn interpret_segment(
        &self,
        segment: &Vec<Token>,
        stack: &mut Vec<usize>,
        memory: &mut Memory,
        variables: &Vec<(String, usize)>,
        status: &mut Flow,
        io: &mut Io,
        fuel: u64,
    ) -> (r: Result<(), RuntimeError>)
        requires
            old(memory).wf(),
        ensures
            final(memory).wf(),
            ({
                let pre = EvalState {
                    stack: old(stack)@,
                    mem: old(memory)@,
                    out: old(io)@,
                    flow: *old(status),
                };
                let post = EvalState {
                    stack: final(stack)@,
                    mem: final(memory)@,
                    out: final(io)@,
                    flow: *final(status),
                };
                match eval_seg(
                    fns_map(fns_view(self.functions)),
                    seg_view(*segment),
                    env_map(vars_seq(*variables)),
                    pre,
                    fuel as nat,
                ) {
                    Ok(st2) => r matches Ok(_) && post == st2,
                    Err(e) => r matches Err(e2) && e2 == e,
                }
            }),
        decreases fuel, 1int,
    {
        let ghost fnsv = fns_map(fns_view(self.functions));
        let ghost envv = env_map(vars_seq(*variables));
        let ghost segv = seg_view(*segment);
        let ghost pre = EvalState {
            stack: old(stack)@,
            mem: old(memory)@,
            out: old(io)@,
            flow: *old(status),
        };
        let mut i: usize = 0;
        proof {
            assert(segv.skip(0) =~= segv);
        }
        while i < segment.len()
            invariant
                fnsv == fns_map(fns_view(self.functions)),
                envv == env_map(vars_seq(*variables)),
                segv == seg_view(*segment),
                pre == (EvalState {
                    stack: old(stack)@,
                    mem: old(memory)@,
                    out: old(io)@,
                    flow: *old(status),
                }),
                old(memory).wf(),
                memory.wf(),
                i <= segment@.len(),
                eval_seg(fnsv, segv, envv, pre, fuel as nat) == eval_seg(
                    fnsv,
                    segv.skip(i as int),
                    envv,
                    EvalState { stack: stack@, mem: memory@, out: io@, flow: *status },
                    fuel as nat,
                ),
            decreases segment@.len() - i,
        {
            let ghost stv = EvalState { stack: stack@, mem: memory@, out: io@, flow: *status };
            let ghost rest = segv.skip(i as int);
            proof {
                assert(rest.len() > 0);
                assert(rest[0] == segv[i as int]);
                assert(segv[i as int] == token_view(segment@[i as int]));
                assert(rest.drop_first() =~= segv.skip(i as int + 1));
                assert(eval_seg(fnsv, rest, envv, stv, fuel as nat) == (match eval_tok(
                    fnsv,
                    rest[0],
                    envv,
                    stv,
                    fuel as nat,
                ) {
                    Err(e) => Err(e),
                    Ok(st2) => if stops_walk(rest[0], st2.flow) {
                        Ok(st2)
                    } else {
                        eval_seg(fnsv, rest.drop_first(), envv, st2, fuel as nat)
                    },
                }));
            }
            match self.step_token(&segment[i], stack, memory, variables, status, io, fuel) {
                Err(e) => {
                    return Err(e);
                },
                Ok(true) => {},
                Ok(false) => {
                    return Ok(());
                },
            }
            i = i + 1;
        }
        proof {
            assert(segv.skip(segment@.len() as int) =~= Seq::<TokenView>::empty());
        }
        Ok(())
    }
}
} // verus!
