//! The parser: consumes the token stream, recursive descent, producing a
//! mapping from function name to an ordered sequence of syntax tree nodes.
//! Names bound by enclosing `let` blocks are tracked so that identifier
//! references resolve at parse time.
//!
//! Every malformed construct is a fatal parse error. In particular the end
//! of the input inside a nested block, inside a `let` header, or right after
//! a block-opening keyword is an error; only the end of input while scanning
//! a function's top-level block counts as that block's natural end.

use vstd::prelude::*;

use crate::lexer::{spec_next_token, string_from_chars, Tokens};
use crate::lexer::lemma_next_token_progress;
use crate::token::{
    seg_view, strings_view, token_view, CmpOperator, MathOperator, MemOpView, MemoryOperation,
    StackOperation, Token, TokenView,
};

verus! {

use vstd::utf8::{encode_scalar, encode_utf8};

/// A fatal parse error; any one of them aborts the whole run.
#[derive(Debug, Clone, Copy, PartialEq, Eq, Structural)]
pub enum ParseError {
    /// The input ended inside a construct that still needed tokens.
    UnexpectedEndOfFile,
    /// A block-opening keyword was not followed by `{`.
    ExpectedOpenBrace,
    /// A token that is no keyword, number, string, function or bound name.
    UnknownToken,
    /// A top-level token other than `fn`.
    UnexpectedTopLevelSymbol,
}

/// `x`, held within `[lo, hi]`. The scanner always moves forward and never
/// past the end of the text, so the clamps built from this never bite; they
/// keep every recursion of the parser visibly descending.
pub open spec fn bounded(lo: int, x: int, hi: int) -> int {
    if x < lo {
        lo
    } else if x > hi {
        hi
    } else {
        x
    }
}

/// Whether `c` is a decimal digit.
pub open spec fn is_digit(c: char) -> bool {
    48 <= c as u32 <= 57
}

/// The value of a sequence of decimal digits.
pub open spec fn digits_val(s: Seq<char>) -> nat
    decreases s.len(),
{
    if s.len() == 0 {
        0
    } else {
        (digits_val(s.drop_last()) * 10 + (s.last() as u32 - 48)) as nat
    }
}

/// The digits of a numeric token: one leading `+` is allowed.
pub open spec fn num_body(t: Seq<char>) -> Seq<char> {
    if t.len() >= 2 && t[0] == '+' {
        t.drop_first()
    } else {
        t
    }
}

/// Whether every character of `s` is a decimal digit.
pub open spec fn all_digits(s: Seq<char>) -> bool {
    forall|k: int| 0 <= k < s.len() ==> is_digit(#[trigger] s[k])
}

/// Whether the token reads as a non-negative machine word: digits, at most
/// one leading `+`, value within `usize`.
pub open spec fn is_usize_token(t: Seq<char>) -> bool {
    &&& num_body(t).len() >= 1
    &&& all_digits(num_body(t))
    &&& digits_val(num_body(t)) <= usize::MAX
}

/// The value of a numeric token.
pub open spec fn token_number(t: Seq<char>) -> nat {
    digits_val(num_body(t))
}

/// Whether the token is a string literal: both ends are quotes.
pub open spec fn is_string_token(t: Seq<char>) -> bool {
    t.len() >= 2 && t[0] == '"' && t[t.len() - 1] == '"'
}

/// The bytes a string-literal token pushes into memory: the UTF-8 bytes of
/// its contents, with one trailing zero byte.
pub open spec fn string_token_bytes(t: Seq<char>) -> Seq<u8> {
    encode_utf8(t.subrange(1, t.len() - 1)).push(0u8)
}

/// The node a plain one-token symbol stands for: operators, stack words,
/// memory words, output words, `break` and `continue`. `None` for any other
/// token.
pub open spec fn simple_node_view(t: Seq<char>) -> Option<TokenView> {
    if t == "+"@ {
        Some(TokenView::Math(MathOperator::Add))
    } else if t == "-"@ {
        Some(TokenView::Math(MathOperator::Sub))
    } else if t == "*"@ {
        Some(TokenView::Math(MathOperator::Mul))
    } else if t == "<"@ {
        Some(TokenView::Cmp(CmpOperator::Less))
    } else if t == ">"@ {
        Some(TokenView::Cmp(CmpOperator::Greater))
    } else if t == "="@ {
        Some(TokenView::Cmp(CmpOperator::Equal))
    } else if t == "dup"@ {
        Some(TokenView::Stack(StackOperation::Dup))
    } else if t == "swap"@ {
        Some(TokenView::Stack(StackOperation::Swap))
    } else if t == "over"@ {
        Some(TokenView::Stack(StackOperation::Over))
    } else if t == "rot"@ {
        Some(TokenView::Stack(StackOperation::Rot))
    } else if t == "drop"@ {
        Some(TokenView::Stack(StackOperation::Drop))
    } else if t == "break"@ {
        Some(TokenView::Break)
    } else if t == "continue"@ {
        Some(TokenView::Continue)
    } else if t == "putc"@ {
        Some(TokenView::Putc)
    } else if t == "putu"@ {
        Some(TokenView::Putu)
    } else if t == "???"@ {
        Some(TokenView::Debug)
    } else if t == "<-"@ {
        Some(TokenView::Memory(MemOpView::LoadByte))
    } else if t == "->"@ {
        Some(TokenView::Memory(MemOpView::StoreByte))
    } else if t == "alloc"@ {
        Some(TokenView::Memory(MemOpView::Alloc))
    } else if t == "free"@ {
        Some(TokenView::Memory(MemOpView::Free))
    } else {
        None
    }
}

/// Prepends one parsed node to the result of parsing the rest of a block.
pub open spec fn cons_node(
    node: TokenView,
    rest: Result<(Seq<TokenView>, int), ParseError>,
) -> Result<(Seq<TokenView>, int), ParseError> {
    match rest {
        Ok((s, m)) => Ok((seq![node] + s, m)),
        Err(e) => Err(e),
    }
}

/// The `let` header: tokens after `let` are bound names, until a `{` opens
/// the body. Yields the names and the position after the `{`; the input
/// ending first is fatal.
pub open spec fn collect_let_names(code: Seq<char>, i: int, acc: Seq<Seq<char>>) -> Result<
    (Seq<Seq<char>>, int),
    ParseError,
>
    decreases code.len() - i,
{
    match spec_next_token(code, i) {
        None => Err(ParseError::UnexpectedEndOfFile),
        Some((t, j0)) => {
            let j = bounded(i + 1, j0, code.len() as int);
            if t == "{"@ {
                Ok((acc, j))
            } else {
                collect_let_names(code, j, acc.push(t))
            }
        },
    }
}

/// A `{` and the nested block it opens, parsed from position `i`: the
/// block's nodes and the position after its closing `}`. Anything but a `{`
/// here, or the input ending, is fatal.
pub open spec fn parse_braced(
    code: Seq<char>,
    i: int,
    fns: Set<Seq<char>>,
    lets: Seq<Seq<char>>,
) -> Result<(Seq<TokenView>, int), ParseError>
    decreases code.len() - i, 0int,
{
    match spec_next_token(code, i) {
        None => Err(ParseError::UnexpectedEndOfFile),
        Some((t, k0)) => {
            let k = bounded(i + 1, k0, code.len() as int);
            if t == "{"@ {
                match parse_seg(code, k, fns, lets, true) {
                    Err(e) => Err(e),
                    Ok((body, m0)) => Ok((body, bounded(k, m0, code.len() as int))),
                }
            } else {
                Err(ParseError::ExpectedOpenBrace)
            }
        },
    }
}

/// One block of the program, parsed from position `i`: the nodes up to the
/// matching `}` (not included in the result) and the position after it.
///
/// `fns` holds the names of the functions parsed so far, `lets` the names
/// visible from enclosing `let` blocks. `nested` tells whether the end of
/// the input is fatal (inside a nested construct) or the block's natural
/// end (a function's top-level block).
pub open spec fn parse_seg(
    code: Seq<char>,
    i: int,
    fns: Set<Seq<char>>,
    lets: Seq<Seq<char>>,
    nested: bool,
) -> Result<(Seq<TokenView>, int), ParseError>
    decreases code.len() - i, 3int,
{
    match spec_next_token(code, i) {
        None => if nested {
            Err(ParseError::UnexpectedEndOfFile)
        } else {
            Ok((Seq::empty(), code.len() as int))
        },
        Some((t, j0)) => {
            let j = bounded(i + 1, j0, code.len() as int);
            if t == "}"@ {
                Ok((Seq::empty(), j))
            } else if simple_node_view(t) is Some {
                cons_node(simple_node_view(t).unwrap(), parse_seg(code, j, fns, lets, nested))
            } else if t == "loop"@ {
                match parse_braced(code, j, fns, lets) {
                    Err(e) => Err(e),
                    Ok((body, m)) => cons_node(
                        TokenView::LoopBlock(body),
                        parse_seg(code, bounded(j, m, code.len() as int), fns, lets, nested),
                    ),
                }
            } else if t == "if"@ {
                match parse_braced(code, j, fns, lets) {
                    Err(e) => Err(e),
                    Ok((true_block, m)) => parse_if_else(
                        code,
                        bounded(j, m, code.len() as int),
                        fns,
                        lets,
                        nested,
                        true_block,
                    ),
                }
            } else if t == "while"@ {
                match parse_braced(code, j, fns, lets) {
                    Err(e) => Err(e),
                    Ok((cond, m1)) => {
                        let m = bounded(j, m1, code.len() as int);
                        match parse_braced(code, m, fns, lets) {
                            Err(e) => Err(e),
                            Ok((body, q1)) => cons_node(
                                TokenView::WhileBlock(cond, body),
                                parse_seg(
                                    code,
                                    bounded(m, q1, code.len() as int),
                                    fns,
                                    lets,
                                    nested,
                                ),
                            ),
                        }
                    },
                }
            } else if t == "let"@ {
                match collect_let_names(code, j, Seq::empty()) {
                    Err(e) => Err(e),
                    Ok((names, k0)) => {
                        let k = bounded(j, k0, code.len() as int);
                        match parse_seg(code, k, fns, lets + names, true) {
                            Err(e) => Err(e),
                            Ok((body, m0)) => {
                                let m = bounded(k, m0, code.len() as int);
                                cons_node(
                                    TokenView::LetBlock(body, names),
                                    parse_seg(code, m, fns, lets, nested),
                                )
                            },
                        }
                    },
                }
            } else if is_usize_token(t) {
                cons_node(
                    TokenView::Push(token_number(t) as usize),
                    parse_seg(code, j, fns, lets, nested),
                )
            } else if is_string_token(t) {
                cons_node(
                    TokenView::Memory(MemOpView::PushBytes(string_token_bytes(t))),
                    parse_seg(code, j, fns, lets, nested),
                )
            } else if fns.contains(t) {
                cons_node(TokenView::FunctionCall(t), parse_seg(code, j, fns, lets, nested))
            } else if lets.contains(t) {
                cons_node(TokenView::Let(t), parse_seg(code, j, fns, lets, nested))
            } else {
                Err(ParseError::UnknownToken)
            }
        },
    }
}

/// After an `if` block: an `else` token continues with the false branch;
/// any other token is left for the enclosing block and the false branch is
/// empty.
pub open spec fn parse_if_else(
    code: Seq<char>,
    m: int,
    fns: Set<Seq<char>>,
    lets: Seq<Seq<char>>,
    nested: bool,
    true_block: Seq<TokenView>,
) -> Result<(Seq<TokenView>, int), ParseError>
    decreases code.len() - m, 4int,
{
    let no_else = cons_node(
        TokenView::IfBlock(true_block, Seq::empty()),
        parse_seg(code, m, fns, lets, nested),
    );
    match spec_next_token(code, m) {
        None => no_else,
        Some((t, p0)) => {
            let p = bounded(m + 1, p0, code.len() as int);
            if t == "else"@ {
                match parse_braced(code, p, fns, lets) {
                    Err(e) => Err(e),
                    Ok((false_block, r1)) => cons_node(
                        TokenView::IfBlock(true_block, false_block),
                        parse_seg(code, bounded(p, r1, code.len() as int), fns, lets, nested),
                    ),
                }
            } else {
                no_else
            }
        },
    }
}

/// The top level of a program: a sequence of `fn name { ... }` definitions,
/// gathered into the function map; re-declaring a name overwrites silently.
pub open spec fn parse_top(
    code: Seq<char>,
    i: int,
    m: Map<Seq<char>, Seq<TokenView>>,
) -> Result<Map<Seq<char>, Seq<TokenView>>, ParseError>
    decreases code.len() - i,
{
    match spec_next_token(code, i) {
        None => Ok(m),
        Some((t, j0)) => {
            let j = bounded(i + 1, j0, code.len() as int);
            if t == "fn"@ {
                match spec_next_token(code, j) {
                    None => Err(ParseError::UnexpectedEndOfFile),
                    Some((name, k0)) => {
                        let k = bounded(j + 1, k0, code.len() as int);
                        match spec_next_token(code, k) {
                            None => Err(ParseError::UnexpectedEndOfFile),
                            Some((t2, p0)) => {
                                let p = bounded(k + 1, p0, code.len() as int);
                                if t2 == "{"@ {
                                    match parse_seg(code, p, m.dom(), Seq::empty(), false) {
                                        Err(e) => Err(e),
                                        Ok((body, q0)) => parse_top(
                                            code,
                                            bounded(p, q0, code.len() as int),
                                            m.insert(name, body),
                                        ),
                                    }
                                } else {
                                    Err(ParseError::ExpectedOpenBrace)
                                }
                            },
                        }
                    },
                }
            } else {
                Err(ParseError::UnexpectedTopLevelSymbol)
            }
        },
    }
}

/// The whole program a source text parses to: its function map, or the
/// first fatal parse error.
pub open spec fn spec_parse(code: Seq<char>) -> Result<Map<Seq<char>, Seq<TokenView>>, ParseError> {
    parse_top(code, 0, Map::empty())
}

/// The mathematical value of the function list: names and bodies as an
/// association sequence, later entries overriding earlier ones.
pub open spec fn fns_view(v: Vec<(String, Vec<Token>)>) -> Seq<(Seq<char>, Seq<TokenView>)> {
    Seq::new(v@.len(), |i: int| (v@[i].0@, seg_view(v@[i].1)))
}

/// The map an association sequence stands for: entries applied in order,
/// so the last entry for a name wins.
pub open spec fn fns_map(s: Seq<(Seq<char>, Seq<TokenView>)>) -> Map<Seq<char>, Seq<TokenView>>
    decreases s.len(),
{
    if s.len() == 0 {
        Map::empty()
    } else {
        fns_map(s.drop_last()).insert(s.last().0, s.last().1)
    }
}

/// A parsed program: the mapping from function name to body, built once at
/// parse time and immutable during execution.
#[derive(Debug)]
pub struct Program {
    pub(crate) functions: Vec<(String, Vec<Token>)>,
}

impl View for Program {
    type V = Map<Seq<char>, Seq<TokenView>>;

    closed spec fn view(&self) -> Map<Seq<char>, Seq<TokenView>> {
        fns_map(fns_view(self.functions))
    }
}

/// Within the crate: a program's mathematical value is the map its
/// function list stands for.
pub(crate) proof fn lemma_program_view(p: &Program)
    ensures
        p@ == fns_map(fns_view(p.functions)),
{
}

/// A name is in the map of an association sequence exactly when some entry
/// carries it.
pub proof fn lemma_fns_map_dom(s: Seq<(Seq<char>, Seq<TokenView>)>, n: Seq<char>)
    ensures
        fns_map(s).dom().contains(n) <==> exists|k: int| 0 <= k < s.len() && (#[trigger] s[k]).0 == n,
    decreases s.len(),
{
    if s.len() > 0 {
        lemma_fns_map_dom(s.drop_last(), n);
        if fns_map(s).dom().contains(n) {
            if s.last().0 == n {
                assert(s[s.len() - 1].0 == n);
            } else {
                let k = choose|k: int| 0 <= k < s.drop_last().len() && (#[trigger] s.drop_last()[k]).0 == n;
                assert(s[k].0 == n);
            }
        }
        if exists|k: int| 0 <= k < s.len() && (#[trigger] s[k]).0 == n {
            let k = choose|k: int| 0 <= k < s.len() && (#[trigger] s[k]).0 == n;
            if k < s.len() - 1 {
                assert(s.drop_last()[k].0 == n);
            }
        }
    }
}

/// The map of an association sequence returns the body of the last entry
/// that carries the name.
pub proof fn lemma_fns_map_last(s: Seq<(Seq<char>, Seq<TokenView>)>, k: int)
    requires
        0 <= k < s.len(),
        forall|j: int| k < j < s.len() ==> (#[trigger] s[j]).0 != s[k].0,
    ensures
        fns_map(s).dom().contains(s[k].0),
        fns_map(s)[s[k].0] == s[k].1,
    decreases s.len(),
{
    if k == s.len() - 1 {
    } else {
        assert(s.drop_last()[k] == s[k]);
        lemma_fns_map_last(s.drop_last(), k);
        assert(s[s.len() - 1].0 != s[k].0);
    }
}


/// Applying parsed nodes accumulated so far in front of the rest of a
/// block's parse.
pub open spec fn prefix_result(
    prefix: Seq<TokenView>,
    rest: Result<(Seq<TokenView>, int), ParseError>,
) -> Result<(Seq<TokenView>, int), ParseError> {
    match rest {
        Ok((s, m)) => Ok((prefix + s, m)),
        Err(e) => Err(e),
    }
}

/// Moving one freshly parsed node from the remainder into the accumulator.
proof fn lemma_prefix_cons(
    prefix: Seq<TokenView>,
    node: TokenView,
    rest: Result<(Seq<TokenView>, int), ParseError>,
)
    ensures
        prefix_result(prefix, cons_node(node, rest)) == prefix_result(prefix.push(node), rest),
{
    match rest {
        Ok((s, m)) => {
            assert(prefix + (seq![node] + s) =~= prefix.push(node) + s);
        },
        Err(e) => {},
    }
}

/// Pushing a node onto a block extends the block's mathematical value by
/// that node's value.
proof fn lemma_seg_view_push(v1: Vec<Token>, v2: Vec<Token>, t: Token)
    requires
        v2@ == v1@.push(t),
    ensures
        seg_view(v2) == seg_view(v1).push(token_view(t)),
{
    assert(seg_view(v2) =~~= seg_view(v1).push(token_view(t)));
}

/// Pushing a name onto a name list extends its mathematical value.
proof fn lemma_strings_view_push(v1: Vec<String>, v2: Vec<String>, n: String)
    requires
        v2@ == v1@.push(n),
    ensures
        strings_view(v2) == strings_view(v1).push(n@),
{
    assert(strings_view(v2) =~~= strings_view(v1).push(n@));
}

/// Whether a token string equals the given keyword.
fn token_eq(ts: &String, kw: &str) -> (r: bool)
    ensures
        r == (ts@ == kw@),
{
    let k = String::from_str(kw);
    *ts == k
}

/// A digit sequence is worth at least any of its prefixes.
proof fn lemma_digits_prefix(s: Seq<char>, j: int)
    requires
        all_digits(s),
        0 <= j <= s.len(),
    ensures
        digits_val(s.subrange(0, j)) <= digits_val(s),
    decreases s.len() - j,
{
    if j < s.len() {
        assert(s.subrange(0, j + 1).drop_last() =~= s.subrange(0, j));
        assert(s.subrange(0, j + 1).last() == s[j]);
        assert(is_digit(s[j]));
        lemma_digits_prefix(s, j + 1);
    } else {
        assert(s.subrange(0, j) =~= s);
    }
}

/// Reads a token as a non-negative machine word, exactly when it is one:
/// decimal digits after at most one leading `+`, value within `usize`.
fn parse_usize_token(t: &Vec<char>) -> (r: Option<usize>)
    ensures
        match r {
            Some(v) => is_usize_token(t@) && v == token_number(t@),
            None => !is_usize_token(t@),
        },
{
    let mut start: usize = 0;
    if t.len() >= 2 && t[0] == '+' {
        start = 1;
    }
    proof {
        assert(num_body(t@) =~= t@.skip(start as int));
    }
    if t.len() == start {
        return None;
    }
    let ghost body = num_body(t@);
    let mut val: usize = 0;
    let mut k: usize = start;
    proof {
        assert(t@.subrange(start as int, start as int) =~= Seq::<char>::empty());
    }
    while k < t.len()
        invariant
            start <= k <= t@.len(),
            start < t@.len(),
            body == num_body(t@),
            body == t@.skip(start as int),
            all_digits(t@.subrange(start as int, k as int)),
            val == digits_val(t@.subrange(start as int, k as int)),
        decreases t@.len() - k,
    {
        let ghost prefix = t@.subrange(start as int, k as int);
        let c: char = t[k];
        let d: u32 = c as u32;
        proof {
            assert(body[k - start] == t@[k as int]);
        }
        if d < 48 || d > 57 {
            return None;
        }
        proof {
            assert(t@.subrange(start as int, k as int + 1).drop_last() =~= prefix);
            assert(t@.subrange(start as int, k as int + 1).last() == t@[k as int]);
            assert(forall|x: int|
                0 <= x < k + 1 - start ==> t@.subrange(start as int, k as int + 1)[x] == #[trigger] t@[
                start + x]);
        }
        let digit: usize = (d - 48) as usize;
        let next: usize = match val.checked_mul(10) {
            Some(x) => match x.checked_add(digit) {
                Some(y) => y,
                None => {
                    proof {
                        lemma_number_overflow(t@, start as int, k as int);
                    }
                    return None;
                },
            },
            None => {
                proof {
                    lemma_number_overflow(t@, start as int, k as int);
                }
                return None;
            },
        };
        val = next;
        k = k + 1;
    }
    proof {
        assert(t@.subrange(start as int, t@.len() as int) =~= t@.skip(start as int));
    }
    Some(val)
}

/// When one more digit no longer fits in a machine word, the whole token's
/// value does not fit either.
proof fn lemma_number_overflow(t: Seq<char>, start: int, k: int)
    requires
        0 <= start <= k < t.len(),
        num_body(t) == t.skip(start),
        all_digits(t.subrange(start, k)),
        is_digit(t[k]),
        digits_val(t.subrange(start, k)) * 10 + (t[k] as u32 - 48) > usize::MAX,
    ensures
        !is_usize_token(t),
{
    if is_usize_token(t) {
        let body = t.skip(start);
        assert(t.subrange(start, k + 1).drop_last() =~= t.subrange(start, k));
        assert(t.subrange(start, k + 1).last() == t[k]);
        assert(digits_val(t.subrange(start, k + 1)) > usize::MAX);
        assert(body.subrange(0, k + 1 - start) =~= t.subrange(start, k + 1));
        lemma_digits_prefix(body, k + 1 - start);
    }
}

/// Whether the token's characters form a string literal.
fn is_string_tok(t: &Vec<char>) -> (r: bool)
    ensures
        r == is_string_token(t@),
{
    t.len() >= 2 && t[0] == '"' && t[t.len() - 1] == '"'
}

/// Relies on `char::encode_utf8`: a character turns into the bytes that
/// vstd's UTF-8 specification assigns to its code point.
#[verifier::external_body]
pub(crate) fn encode_char(c: char) -> (r: Vec<u8>)
    ensures
        r@ == encode_scalar(c as u32),
{
    let mut buf = [0u8; 4];
    c.encode_utf8(&mut buf).as_bytes().to_vec()
}

/// Encoding one more character appends that character's bytes.
proof fn lemma_encode_utf8_snoc(s: Seq<char>, c: char)
    ensures
        encode_utf8(s.push(c)) == encode_utf8(s) + encode_scalar(c as u32),
    decreases s.len(),
{
    if s.len() == 0 {
        assert(s.push(c).drop_first() =~= s);
        assert(s.push(c)[0] == c);
        assert(encode_utf8(s.push(c)) =~= encode_utf8(s) + encode_scalar(c as u32));
    } else {
        assert(s.push(c).drop_first() =~= s.drop_first().push(c));
        assert(s.push(c)[0] == s[0]);
        lemma_encode_utf8_snoc(s.drop_first(), c);
        let a = encode_scalar(s[0] as u32);
        let b = encode_utf8(s.drop_first());
        let e = encode_scalar(c as u32);
        assert(encode_utf8(s.push(c)) == a + (b + e));
        assert(encode_utf8(s) == a + b);
        assert(a + (b + e) =~= (a + b) + e);
    }
}

/// The bytes a string-literal token stands for: the UTF-8 encoding of its
/// contents with one trailing zero byte.
fn encode_token_bytes(t: &Vec<char>) -> (r: Vec<u8>)
    requires
        is_string_token(t@),
    ensures
        r@ == string_token_bytes(t@),
{
    let mut out: Vec<u8> = Vec::new();
    let mut k: usize = 1;
    proof {
        assert(t@.subrange(1, 1) =~= Seq::<char>::empty());
        assert(out@ =~= encode_utf8(t@.subrange(1, 1)));
    }
    while k < t.len() - 1
        invariant
            1 <= k <= t@.len() - 1,
            t@.len() >= 2,
            out@ == encode_utf8(t@.subrange(1, k as int)),
        decreases t@.len() - k,
    {
        let mut bs = encode_char(t[k]);
        let ghost pre = out@;
        out.append(&mut bs);
        proof {
            lemma_encode_utf8_snoc(t@.subrange(1, k as int), t@[k as int]);
            assert(t@.subrange(1, k as int + 1) =~= t@.subrange(1, k as int).push(t@[k as int]));
        }
        k = k + 1;
    }
    out.push(0);
    proof {
        assert(out@ =~= string_token_bytes(t@));
    }
    out
}

/// Whether the name is that of an already parsed function.
fn contains_fn(functions: &Vec<(String, Vec<Token>)>, name: &String) -> (r: bool)
    ensures
        r == fns_map(fns_view(*functions)).dom().contains(name@),
{
    let ghost fv = fns_view(*functions);
    let mut k: usize = 0;
    while k < functions.len()
        invariant
            k <= functions@.len(),
            fv == fns_view(*functions),
            forall|j: int| 0 <= j < k ==> (#[trigger] fv[j]).0 != name@,
        decreases functions@.len() - k,
    {
        if functions[k].0 == *name {
            proof {
                lemma_fns_map_dom(fv, name@);
                assert(functions@[k as int].0@ == name@);
                assert(fv[k as int].0 == name@);
                assert(fns_map(fv).dom().contains(name@));
            }
            return true;
        }
        proof {
            assert(fv[k as int].0 == functions@[k as int].0@);
        }
        k = k + 1;
    }
    proof {
        lemma_fns_map_dom(fv, name@);
        if fns_map(fv).dom().contains(name@) {
            let j = choose|j: int| 0 <= j < fv.len() && (#[trigger] fv[j]).0 == name@;
            assert(fv[j].0 != name@);
        }
    }
    false
}

/// Whether the name is bound by an enclosing `let` block.
fn contains_name(lets: &Vec<String>, name: &String) -> (r: bool)
    ensures
        r == strings_view(*lets).contains(name@),
{
    let ghost lv = strings_view(*lets);
    let mut k: usize = 0;
    while k < lets.len()
        invariant
            k <= lets@.len(),
            lv == strings_view(*lets),
            forall|j: int| 0 <= j < k ==> #[trigger] lv[j] != name@,
        decreases lets@.len() - k,
    {
        if lets[k] == *name {
            proof {
                assert(lv[k as int] == name@);
            }
            return true;
        }
        proof {
            assert(lv[k as int] == lets@[k as int]@);
        }
        k = k + 1;
    }
    proof {
        if lv.contains(name@) {
            let j = choose|j: int| 0 <= j < lv.len() && lv[j] == name@;
            assert(lv[j] != name@);
        }
    }
    false
}

/// The given names appended, as fresh strings, to the visible `let` names.
fn extend_lets(lets: &Vec<String>, names: &Vec<String>) -> (r: Vec<String>)
    ensures
        strings_view(r) == strings_view(*lets) + strings_view(*names),
{
    let mut out: Vec<String> = Vec::new();
    let mut k: usize = 0;
    while k < lets.len()
        invariant
            k <= lets@.len(),
            out@.len() == k,
            forall|x: int| 0 <= x < k ==> #[trigger] out@[x]@ == lets@[x]@,
        decreases lets@.len() - k,
    {
        out.push(lets[k].clone());
        k = k + 1;
    }
    let mut k2: usize = 0;
    let base: usize = lets.len();
    while k2 < names.len()
        invariant
            k2 <= names@.len(),
            base == lets@.len(),
            out@.len() == base + k2,
            forall|x: int| 0 <= x < base ==> #[trigger] out@[x]@ == lets@[x]@,
            forall|x: int|
                base <= x < base + k2 ==> #[trigger] out@[x]@ == names@[x - base]@,
        decreases names@.len() - k2,
    {
        out.push(names[k2].clone());
        k2 = k2 + 1;
    }
    proof {
        assert(strings_view(out) =~~= strings_view(*lets) + strings_view(*names));
    }
    out
}




/// The syntax node a plain one-token symbol maps to, if any.
fn simple_node(ts: &String) -> (r: Option<Token>)
    ensures
        match r {
            Some(n) => simple_node_view(ts@) == Some(token_view(n)),
            None => simple_node_view(ts@) is None,
        },
{
    if token_eq(ts, "+") {
        Some(Token::Math(MathOperator::Add))
    } else if token_eq(ts, "-") {
        Some(Token::Math(MathOperator::Sub))
    } else if token_eq(ts, "*") {
        Some(Token::Math(MathOperator::Mul))
    } else if token_eq(ts, "<") {
        Some(Token::Cmp(CmpOperator::Less))
    } else if token_eq(ts, ">") {
        Some(Token::Cmp(CmpOperator::Greater))
    } else if token_eq(ts, "=") {
        Some(Token::Cmp(CmpOperator::Equal))
    } else if token_eq(ts, "dup") {
        Some(Token::Stack(StackOperation::Dup))
    } else if token_eq(ts, "swap") {
        Some(Token::Stack(StackOperation::Swap))
    } else if token_eq(ts, "over") {
        Some(Token::Stack(StackOperation::Over))
    } else if token_eq(ts, "rot") {
        Some(Token::Stack(StackOperation::Rot))
    } else if token_eq(ts, "drop") {
        Some(Token::Stack(StackOperation::Drop))
    } else if token_eq(ts, "break") {
        Some(Token::Break)
    } else if token_eq(ts, "continue") {
        Some(Token::Continue)
    } else if token_eq(ts, "putc") {
        Some(Token::Putc)
    } else if token_eq(ts, "putu") {
        Some(Token::Putu)
    } else if token_eq(ts, "???") {
        Some(Token::Debug)
    } else if token_eq(ts, "<-") {
        Some(Token::Memory(MemoryOperation::LoadByte))
    } else if token_eq(ts, "->") {
        Some(Token::Memory(MemoryOperation::StoreByte))
    } else if token_eq(ts, "alloc") {
        Some(Token::Memory(MemoryOperation::Alloc))
    } else if token_eq(ts, "free") {
        Some(Token::Memory(MemoryOperation::Free))
    } else {
        None
    }
}

impl Program {
    /// Parses source text into a program: `fn name { ... }` definitions in
    /// order, a later definition of a name silently overwriting an earlier
    /// one. Any malformed construct is a fatal parse error.
    pub fn parse(code: &str) -> (r: Result<Program, ParseError>)
        ensures
            match spec_parse(code@) {
                Ok(m) => r matches Ok(p) && p@ == m,
                Err(e) => r matches Err(e2) && e2 == e,
            },
    {
        let mut toks = Tokens::new(code);
        let mut functions: Vec<(String, Vec<Token>)> = Vec::new();
        let no_lets: Vec<String> = Vec::new();
        let ghost code0 = code@;
        proof {
            assert(fns_view(functions) =~~= Seq::<(Seq<char>, Seq<TokenView>)>::empty());
            assert(fns_map(fns_view(functions)) =~= Map::<Seq<char>, Seq<TokenView>>::empty());
        }
        loop
            invariant
                code0 == code@,
                toks.wf(),
                toks@.code == code0,
                no_lets@.len() == 0,
                parse_top(code0, 0, Map::empty()) == parse_top(
                    code0,
                    toks@.pos,
                    fns_map(fns_view(functions)),
                ),
            decreases code0.len() - toks@.pos,
        {
            let ghost cur = toks@.pos;
            let ghost m0 = fns_map(fns_view(functions));
            match toks.next_chars() {
                None => {
                    return Ok(Program { functions });
                },
                Some(tvec) => {
                    proof {
                        lemma_next_token_progress(code0, cur);
                    }
                    let ts = string_from_chars(&tvec);
                    if !token_eq(&ts, "fn") {
                        return Err(ParseError::UnexpectedTopLevelSymbol);
                    }
                    let ghost cur2 = toks@.pos;
                    let name = match toks.next_chars() {
                        None => {
                            return Err(ParseError::UnexpectedEndOfFile);
                        },
                        Some(nv) => {
                            proof {
                                lemma_next_token_progress(code0, cur2);
                            }
                            string_from_chars(&nv)
                        },
                    };
                    let ghost cur3 = toks@.pos;
                    match toks.next_chars() {
                        None => {
                            return Err(ParseError::UnexpectedEndOfFile);
                        },
                        Some(bv) => {
                            proof {
                                lemma_next_token_progress(code0, cur3);
                            }
                            let bs = string_from_chars(&bv);
                            if !token_eq(&bs, "{") {
                                return Err(ParseError::ExpectedOpenBrace);
                            }
                            proof {
                                assert(strings_view(no_lets) =~~= Seq::<Seq<char>>::empty());
                            }
                            match Self::parse_code_segment(&mut toks, &functions, &no_lets, false) {
                                Err(e) => {
                                    return Err(e);
                                },
                                Ok(body) => {
                                    let ghost fv_pre = fns_view(functions);
                                    let ghost namev = name@;
                                    let ghost bodyv = seg_view(body);
                                    functions.push((name, body));
                                    proof {
                                        assert(fns_view(functions) =~~= fv_pre.push(
                                            (namev, bodyv),
                                        ));
                                        assert(fns_view(functions).drop_last() =~~= fv_pre);
                                        assert(fns_map(fns_view(functions)) == m0.insert(
                                            namev,
                                            bodyv,
                                        ));
                                    }
                                },
                            }
                        },
                    }
                },
            }
        }
    }

    /// A `{` and the nested block it opens: reads the brace, parses the
    /// block, and leaves the scanner after the closing `}`.
    fn parse_block_after_brace(
        code: &mut Tokens,
        functions: &Vec<(String, Vec<Token>)>,
        lets: &Vec<String>,
    ) -> (r: Result<Vec<Token>, ParseError>)
        requires
            old(code).wf(),
        ensures
            final(code).wf(),
            final(code)@.code == old(code)@.code,
            r matches Ok(_) ==> old(code)@.pos < final(code)@.pos,
            match parse_braced(
                old(code)@.code,
                old(code)@.pos,
                fns_map(fns_view(*functions)).dom(),
                strings_view(*lets),
            ) {
                Ok((toks, m)) => r matches Ok(v) && seg_view(v) == toks && final(code)@.pos == m,
                Err(e) => r matches Err(e2) && e2 == e,
            },
        decreases old(code)@.code.len() - old(code)@.pos, 0int,
    {
        let ghost code0 = old(code)@.code;
        let ghost cur = old(code)@.pos;
        match code.next_chars() {
            None => Err(ParseError::UnexpectedEndOfFile),
            Some(bv) => {
                proof {
                    lemma_next_token_progress(code0, cur);
                }
                let bs = string_from_chars(&bv);
                if token_eq(&bs, "{") {
                    Self::parse_code_segment(code, functions, lets, true)
                } else {
                    Err(ParseError::ExpectedOpenBrace)
                }
            },
        }
    }

    /// The header of a `let` block: the bound names up to the `{` that
    /// opens the body, leaving the scanner after that `{`.
    fn collect_let_tokens(code: &mut Tokens) -> (r: Result<Vec<String>, ParseError>)
        requires
            old(code).wf(),
        ensures
            final(code).wf(),
            final(code)@.code == old(code)@.code,
            r matches Ok(_) ==> old(code)@.pos < final(code)@.pos,
            match collect_let_names(old(code)@.code, old(code)@.pos, Seq::empty()) {
                Ok((ns, m)) => r matches Ok(v) && strings_view(v) == ns && final(code)@.pos == m,
                Err(e) => r matches Err(e2) && e2 == e,
            },
    {
        let ghost code0 = old(code)@.code;
        let ghost pos0 = old(code)@.pos;
        let mut names: Vec<String> = Vec::new();
        proof {
            assert(strings_view(names) =~~= Seq::<Seq<char>>::empty());
        }
        loop
            invariant_except_break
                code0 == old(code)@.code,
                pos0 == old(code)@.pos,
                code.wf(),
                code@.code == code0,
                pos0 <= code@.pos,
                collect_let_names(code0, pos0, Seq::empty()) == collect_let_names(
                    code0,
                    code@.pos,
                    strings_view(names),
                ),
            ensures
                code0 == old(code)@.code,
                pos0 == old(code)@.pos,
                code.wf(),
                code@.code == code0,
                pos0 < code@.pos,
                collect_let_names(code0, pos0, Seq::empty()) == Ok::<
                    (Seq<Seq<char>>, int),
                    ParseError,
                >((strings_view(names), code@.pos as int)),
            decreases code0.len() - code@.pos,
        {
            let ghost c2 = code@.pos;
            match code.next_chars() {
                None => {
                    return Err(ParseError::UnexpectedEndOfFile);
                },
                Some(nv) => {
                    proof {
                        lemma_next_token_progress(code0, c2);
                    }
                    let ns = string_from_chars(&nv);
                    if token_eq(&ns, "{") {
                        break ;
                    }
                    let ghost pre_names = names;
                    names.push(ns);
                    proof {
                        lemma_strings_view_push(pre_names, names, names@.last());
                    }
                },
            }
        }
        Ok(names)
    }

    /// One block of a function body, up to its closing `}` or, for a
    /// function's top-level block, the end of the input. `functions` holds
    /// the functions parsed so far, `lets` the `let` names in scope, and
    /// `nested` whether running out of input is fatal.
    #[verifier::rlimit(100)]
    fn parse_code_segment(
        code: &mut Tokens,
        functions: &Vec<(String, Vec<Token>)>,
        lets: &Vec<String>,
        nested: bool,
    ) -> (r: Result<Vec<Token>, ParseError>)
        requires
            old(code).wf(),
        ensures
            final(code).wf(),
            final(code)@.code == old(code)@.code,
            r matches Ok(_) ==> old(code)@.pos <= final(code)@.pos,
            match parse_seg(
                old(code)@.code,
                old(code)@.pos,
                fns_map(fns_view(*functions)).dom(),
                strings_view(*lets),
                nested,
            ) {
                Ok((toks, m)) => r matches Ok(v) && seg_view(v) == toks && final(code)@.pos == m,
                Err(e) => r matches Err(e2) && e2 == e,
            },
        decreases old(code)@.code.len() - old(code)@.pos, 1int,
    {
        let ghost code0 = old(code)@.code;
        let ghost pos0 = old(code)@.pos;
        let ghost fnames = fns_map(fns_view(*functions)).dom();
        let ghost letseq = strings_view(*lets);
        let mut tokens: Vec<Token> = Vec::new();
        proof {
            assert(seg_view(tokens) =~~= Seq::<TokenView>::empty());
        }
        loop
            invariant
                code0 == old(code)@.code,
                pos0 == old(code)@.pos,
                code.wf(),
                code@.code == code0,
                pos0 <= code@.pos,
                fnames == fns_map(fns_view(*functions)).dom(),
                letseq == strings_view(*lets),
                parse_seg(code0, pos0, fnames, letseq, nested) == prefix_result(
                    seg_view(tokens),
                    parse_seg(code0, code@.pos, fnames, letseq, nested),
                ),
            decreases code0.len() - code@.pos,
        {
            let ghost cur = code@.pos;
            let ghost acc = seg_view(tokens);
            match code.next_chars() {
                None => {
                    if nested {
                        return Err(ParseError::UnexpectedEndOfFile);
                    }
                    proof {
                        assert(acc + Seq::<TokenView>::empty() =~= acc);
                    }
                    return Ok(tokens);
                },
                Some(tvec) => {
                    proof {
                        lemma_next_token_progress(code0, cur);
                    }
                    let ghost j = code@.pos;
                    let ts = string_from_chars(&tvec);
                    if token_eq(&ts, "}") {
                        proof {
                            assert(acc + Seq::<TokenView>::empty() =~= acc);
                        }
                        return Ok(tokens);
                    } else if let Some(node) = simple_node(&ts) {
                        let ghost nodev = token_view(node);
                        let ghost pre = tokens;
                        tokens.push(node);
                        proof {
                            lemma_seg_view_push(pre, tokens, tokens@.last());
                            lemma_prefix_cons(
                                acc,
                                nodev,
                                parse_seg(code0, j, fnames, letseq, nested),
                            );
                        }
                    } else if token_eq(&ts, "loop") {
                        let body = match Self::parse_block_after_brace(code, functions, lets) {
                            Err(e) => {
                                return Err(e);
                            },
                            Ok(b) => b,
                        };
                        let ghost bodyv = seg_view(body);
                        let ghost pre = tokens;
                        tokens.push(Token::LoopBlock(body));
                        proof {
                            lemma_seg_view_push(pre, tokens, tokens@.last());
                            lemma_prefix_cons(
                                acc,
                                TokenView::LoopBlock(bodyv),
                                parse_seg(code0, code@.pos, fnames, letseq, nested),
                            );
                        }
                    } else if token_eq(&ts, "if") {
                        let true_block = match Self::parse_block_after_brace(code, functions, lets) {
                            Err(e) => {
                                return Err(e);
                            },
                            Ok(b) => b,
                        };
                        let ghost tbv = seg_view(true_block);
                        let ghost m = code@.pos;
                        let save: usize = code.mark();
                        let mut has_else: bool = false;
                        match code.next_chars() {
                            None => {
                                code.reset(save);
                            },
                            Some(ev) => {
                                proof {
                                    lemma_next_token_progress(code0, m);
                                }
                                let es = string_from_chars(&ev);
                                if token_eq(&es, "else") {
                                    has_else = true;
                                } else {
                                    code.reset(save);
                                }
                            },
                        }
                        if has_else {
                            let ghost pelse = code@.pos;
                            let false_block = match Self::parse_block_after_brace(
                                code,
                                functions,
                                lets,
                            ) {
                                Err(e) => {
                                    proof {
                                        assert(spec_next_token(code0, m) matches Some((t3, p0))
                                            && t3 == "else"@ && bounded(m + 1, p0, code0.len() as int)
                                            == pelse);
                                        assert(parse_braced(code0, pelse, fnames, letseq)
                                            == Err::<(Seq<TokenView>, int), ParseError>(e));
                                        assert(parse_if_else(code0, m, fnames, letseq, nested, tbv)
                                            == Err::<(Seq<TokenView>, int), ParseError>(e));
                                        assert(parse_seg(code0, cur, fnames, letseq, nested)
                                            == Err::<(Seq<TokenView>, int), ParseError>(e));
                                    }
                                    return Err(e);
                                },
                                Ok(b) => b,
                            };
                            let ghost fbv = seg_view(false_block);
                            let ghost pre = tokens;
                            tokens.push(Token::IfBlock(true_block, false_block));
                            proof {
                                lemma_seg_view_push(pre, tokens, tokens@.last());
                                lemma_prefix_cons(
                                    acc,
                                    TokenView::IfBlock(tbv, fbv),
                                    parse_seg(code0, code@.pos, fnames, letseq, nested),
                                );
                                assert(parse_if_else(code0, m, fnames, letseq, nested, tbv)
                                    == cons_node(
                                    TokenView::IfBlock(tbv, fbv),
                                    parse_seg(code0, code@.pos, fnames, letseq, nested),
                                ));
                                assert(parse_seg(code0, pos0, fnames, letseq, nested)
                                    == prefix_result(
                                    seg_view(tokens),
                                    parse_seg(code0, code@.pos, fnames, letseq, nested),
                                ));
                            }
                        } else {
                            let empty_block: Vec<Token> = Vec::new();
                            let ghost pre = tokens;
                            proof {
                                assert(seg_view(empty_block) =~~= Seq::<TokenView>::empty());
                            }
                            tokens.push(Token::IfBlock(true_block, empty_block));
                            proof {
                                lemma_seg_view_push(pre, tokens, tokens@.last());
                                lemma_prefix_cons(
                                    acc,
                                    TokenView::IfBlock(tbv, Seq::empty()),
                                    parse_seg(code0, code@.pos, fnames, letseq, nested),
                                );
                                assert(parse_if_else(code0, m, fnames, letseq, nested, tbv)
                                    == cons_node(
                                    TokenView::IfBlock(tbv, Seq::empty()),
                                    parse_seg(code0, code@.pos, fnames, letseq, nested),
                                ));
                                assert(parse_seg(code0, pos0, fnames, letseq, nested)
                                    == prefix_result(
                                    seg_view(tokens),
                                    parse_seg(code0, code@.pos, fnames, letseq, nested),
                                ));
                            }
                        }
                    } else if token_eq(&ts, "while") {
                        let cond = match Self::parse_block_after_brace(code, functions, lets) {
                            Err(e) => {
                                return Err(e);
                            },
                            Ok(b) => b,
                        };
                        let ghost condv = seg_view(cond);
                        let body = match Self::parse_block_after_brace(code, functions, lets) {
                            Err(e) => {
                                return Err(e);
                            },
                            Ok(b) => b,
                        };
                        let ghost bodyv = seg_view(body);
                        let ghost pre = tokens;
                        tokens.push(Token::WhileBlock(cond, body));
                        proof {
                            lemma_seg_view_push(pre, tokens, tokens@.last());
                            lemma_prefix_cons(
                                acc,
                                TokenView::WhileBlock(condv, bodyv),
                                parse_seg(code0, code@.pos, fnames, letseq, nested),
                            );
                        }
                    } else if token_eq(&ts, "let") {
                        let names = match Self::collect_let_tokens(code) {
                            Err(e) => {
                                return Err(e);
                            },
                            Ok(ns) => ns,
                        };
                        let new_lets = extend_lets(lets, &names);
                        let body = match Self::parse_code_segment(code, functions, &new_lets, true) {
                            Err(e) => {
                                return Err(e);
                            },
                            Ok(b) => b,
                        };
                        let ghost bodyv = seg_view(body);
                        let ghost namesv = strings_view(names);
                        let ghost pre = tokens;
                        tokens.push(Token::LetBlock(body, names));
                        proof {
                            lemma_seg_view_push(pre, tokens, tokens@.last());
                            lemma_prefix_cons(
                                acc,
                                TokenView::LetBlock(bodyv, namesv),
                                parse_seg(code0, code@.pos, fnames, letseq, nested),
                            );
                        }
                    } else {
                        match parse_usize_token(&tvec) {
                            Some(v) => {
                                let ghost pre = tokens;
                                tokens.push(Token::Push(v));
                                proof {
                                    lemma_seg_view_push(pre, tokens, tokens@.last());
                                    lemma_prefix_cons(
                                        acc,
                                        TokenView::Push(v),
                                        parse_seg(code0, j, fnames, letseq, nested),
                                    );
                                }
                            },
                            None => {
                                if is_string_tok(&tvec) {
                                    let data = encode_token_bytes(&tvec);
                                    let ghost datav = data@;
                                    let ghost pre = tokens;
                                    tokens.push(Token::Memory(MemoryOperation::PushBytes(data)));
                                    proof {
                                        lemma_seg_view_push(pre, tokens, tokens@.last());
                                        lemma_prefix_cons(
                                            acc,
                                            TokenView::Memory(MemOpView::PushBytes(datav)),
                                            parse_seg(code0, j, fnames, letseq, nested),
                                        );
                                    }
                                } else if contains_fn(functions, &ts) {
                                    let ghost tsv = ts@;
                                    let ghost pre = tokens;
                                    tokens.push(Token::FunctionCall(ts));
                                    proof {
                                        lemma_seg_view_push(pre, tokens, tokens@.last());
                                        lemma_prefix_cons(
                                            acc,
                                            TokenView::FunctionCall(tsv),
                                            parse_seg(code0, j, fnames, letseq, nested),
                                        );
                                    }
                                } else if contains_name(lets, &ts) {
                                    let ghost tsv = ts@;
                                    let ghost pre = tokens;
                                    tokens.push(Token::Let(ts));
                                    proof {
                                        lemma_seg_view_push(pre, tokens, tokens@.last());
                                        lemma_prefix_cons(
                                            acc,
                                            TokenView::Let(tsv),
                                            parse_seg(code0, j, fnames, letseq, nested),
                                        );
                                    }
                                } else {
                                    return Err(ParseError::UnknownToken);
                                }
                            },
                        }
                    }
                },
            }
        }
    }
}
} // verus!
