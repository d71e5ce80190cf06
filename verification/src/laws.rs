//! Laws of the language as a whole, stated over the same specification
//! functions that the parser's and evaluator's contracts use.

use vstd::prelude::*;

use crate::eval::{
    bind_names, eval_seg, eval_tok, eval_while, spec_run, EvalState, Flow, RuntimeError,
};
use crate::parser::{spec_parse, Program};
use crate::token::TokenView;

verus! {

/// Parsing is deterministic: two programs parsed from the same source text
/// carry structurally identical function maps.
pub proof fn lemma_parse_deterministic(p1: Program, p2: Program, code: Seq<char>)
    requires
        spec_parse(code) == Ok::<_, crate::parser::ParseError>(p1@),
        spec_parse(code) == Ok::<_, crate::parser::ParseError>(p2@),
    ensures
        p1@ == p2@,
{
}

/// Evaluation is deterministic: two programs with identical function maps,
/// run with the same budget against sinks holding the same bytes, write
/// the same output and fail the same way.
pub proof fn lemma_run_deterministic(p1: Program, p2: Program, out0: Seq<u8>, fuel: nat)
    requires
        p1@ == p2@,
    ensures
        spec_run(p1@, out0, fuel) == spec_run(p2@, out0, fuel),
{
}

/// A `while` block whose condition leaves zero on top of the stack runs its
/// body zero times: the loop ends in the state the condition left, less the
/// popped answer, with the control status untouched.
pub proof fn lemma_while_false_runs_body_never(
    fns: Map<Seq<char>, Seq<TokenView>>,
    cond: Seq<TokenView>,
    body: Seq<TokenView>,
    env: Map<Seq<char>, usize>,
    st: EvalState,
    st2: EvalState,
    fuel: nat,
)
    requires
        fuel >= 1,
        eval_seg(fns, cond, env, st, (fuel - 1) as nat) == Ok::<EvalState, RuntimeError>(st2),
        st2.stack.len() >= 1,
        st2.stack.last() == 0,
    ensures
        eval_while(fns, cond, body, env, st, fuel) == Ok::<EvalState, RuntimeError>(
            EvalState { stack: st2.stack.drop_last(), ..st2 },
        ),
{
}

/// A `loop` whose body pushes a word and breaks executes that body exactly
/// once and exits: one word is pushed, and the status is back to normal.
pub proof fn lemma_loop_break_runs_body_once(
    fns: Map<Seq<char>, Seq<TokenView>>,
    env: Map<Seq<char>, usize>,
    st: EvalState,
    v: usize,
    fuel: nat,
)
    requires
        fuel >= 2,
        st.flow == Flow::Normal,
    ensures
        eval_tok(
            fns,
            TokenView::LoopBlock(seq![TokenView::Push(v), TokenView::Break]),
            env,
            st,
            fuel,
        ) == Ok::<EvalState, RuntimeError>(EvalState { stack: st.stack.push(v), ..st }),
{
    let body = seq![TokenView::Push(v), TokenView::Break];
    let st1 = EvalState { stack: st.stack.push(v), ..st };
    let st2 = EvalState { flow: Flow::Break, ..st1 };
    let inner = (fuel - 2) as nat;
    assert(eval_tok(fns, body[0], env, st, inner) == Ok::<EvalState, RuntimeError>(st1));
    assert(body.drop_first() =~= seq![TokenView::Break]);
    assert(body.drop_first().drop_first() =~= Seq::<TokenView>::empty());
    assert(eval_tok(fns, TokenView::Break, env, st1, inner) == Ok::<EvalState, RuntimeError>(st2));
    assert(eval_seg(fns, body.drop_first(), env, st1, inner) == Ok::<EvalState, RuntimeError>(
        st2,
    ));
    assert(eval_seg(fns, body, env, st, inner) == Ok::<EvalState, RuntimeError>(st2));
    assert(eval_tok(fns, TokenView::LoopBlock(body), env, st, fuel) == Ok::<
        EvalState,
        RuntimeError,
    >(EvalState { flow: Flow::Normal, ..st2 }));
    assert(EvalState { flow: Flow::Normal, ..st2 } =~~= st1);
}

/// Scoping of a `let` block of two names whose body reads them back: names
/// are bound by popping in declaration order, so the first-declared name
/// takes the word that was on top; the body then pushes the first name's
/// word below the second's.
pub proof fn lemma_let_binds_in_declaration_order(
    fns: Map<Seq<char>, Seq<TokenView>>,
    env: Map<Seq<char>, usize>,
    st: EvalState,
    n1: Seq<char>,
    n2: Seq<char>,
    s0: Seq<usize>,
    x: usize,
    y: usize,
    fuel: nat,
)
    requires
        fuel >= 1,
        n1 != n2,
        st.stack == s0.push(x).push(y),
        st.flow == Flow::Normal,
    ensures
        eval_tok(
            fns,
            TokenView::LetBlock(seq![TokenView::Let(n1), TokenView::Let(n2)], seq![n1, n2]),
            env,
            st,
            fuel,
        ) == Ok::<EvalState, RuntimeError>(EvalState { stack: s0.push(y).push(x), ..st }),
{
    let names = seq![n1, n2];
    let body = seq![TokenView::Let(n1), TokenView::Let(n2)];
    let env1 = env.insert(n1, y);
    let env2 = env1.insert(n2, x);
    assert(st.stack.last() == y);
    assert(st.stack.drop_last() =~= s0.push(x));
    assert(st.stack.drop_last().last() == x);
    assert(st.stack.drop_last().drop_last() =~= s0);
    assert(names.drop_first() =~= seq![n2]);
    assert(names.drop_first().drop_first() =~= Seq::<Seq<char>>::empty());
    assert(names[0] == n1 && names.drop_first()[0] == n2);
    assert(bind_names(env2, names.drop_first().drop_first(), s0) == env2);
    assert(bind_names(env1, names.drop_first(), s0.push(x)) == env2);
    assert(bind_names(env, names, st.stack) == env2);
    assert(st.stack.take(st.stack.len() - 2) =~= s0);
    let stb = EvalState { stack: s0, ..st };
    let inner = (fuel - 1) as nat;
    assert(env2[n1] == y && env2[n2] == x);
    let st1 = EvalState { stack: s0.push(y), ..stb };
    let st2 = EvalState { stack: s0.push(y).push(x), ..stb };
    assert(eval_tok(fns, body[0], env2, stb, inner) == Ok::<EvalState, RuntimeError>(st1));
    assert(body.drop_first() =~= seq![TokenView::Let(n2)]);
    assert(body.drop_first().drop_first() =~= Seq::<TokenView>::empty());
    assert(eval_tok(fns, TokenView::Let(n2), env2, st1, inner) == Ok::<EvalState, RuntimeError>(
        st2,
    ));
    assert(body.drop_first()[0] == TokenView::Let(n2));
    assert(eval_seg(fns, body.drop_first().drop_first(), env2, st2, inner) == Ok::<
        EvalState,
        RuntimeError,
    >(st2));
    assert(eval_seg(fns, body.drop_first(), env2, st1, inner) == Ok::<EvalState, RuntimeError>(
        st2,
    ));
    assert(eval_seg(fns, body, env2, stb, inner) == Ok::<EvalState, RuntimeError>(st2));
    assert(st2 =~~= EvalState { stack: s0.push(y).push(x), ..st });
}

} // verus!
