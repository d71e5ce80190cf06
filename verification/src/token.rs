//! The abstract syntax tree of the language: a closed set of node variants,
//! each block owning its child sequences by value, together with the
//! mathematical view of a tree used by all specifications.

use vstd::prelude::*;

verus! {

broadcast use vstd::std_specs::vec::axiom_vec_index_decreases;

/// Arithmetic operators: pop two words, push one result.
#[derive(Debug, Clone, Copy, PartialEq, Eq, Structural)]
pub enum MathOperator {
    Add,
    Sub,
    Mul,
}

/// Comparison operators: pop two words, push `1` for true or `0` for false.
#[derive(Debug, Clone, Copy, PartialEq, Eq, Structural)]
pub enum CmpOperator {
    Less,
    Greater,
    Equal,
}

/// Operations that permute, duplicate or discard the top stack words.
#[derive(Debug, Clone, Copy, PartialEq, Eq, Structural)]
pub enum StackOperation {
    Dup,
    Swap,
    Over,
    Rot,
    Drop,
}

/// Operations on the byte-addressable memory region.
#[derive(Debug)]
pub enum MemoryOperation {
    /// Pushes a sequence of bytes into memory, leaving the address on the stack.
    PushBytes(Vec<u8>),
    /// Pops an address and a value, writing the byte at the address.
    StoreByte,
    /// Pops an address, pushing the byte found there.
    LoadByte,
    /// Pops a length and an address, returning that range to the free list.
    Free,
    /// Pops a length, reserving a range of that many bytes; pushes its address.
    Alloc,
}

/// One node of the abstract syntax tree.
#[derive(Debug)]
pub enum Token {
    /// Push a literal word onto the stack.
    Push(usize),
    Math(MathOperator),
    Cmp(CmpOperator),
    Stack(StackOperation),
    Memory(MemoryOperation),
    /// Evaluate the named function's body against the same stack and memory.
    FunctionCall(String),
    /// Pops a word; runs the first block if it is non-zero, else the second.
    IfBlock(Vec<Token>, Vec<Token>),
    /// Runs its body repeatedly until a `Break` escapes it.
    LoopBlock(Vec<Token>),
    /// Condition block, then body: repeats while the condition leaves non-zero.
    WhileBlock(Vec<Token>, Vec<Token>),
    Continue,
    Break,
    /// Body and bound names; names are bound by popping in declaration order.
    LetBlock(Vec<Token>, Vec<String>),
    /// Push the value bound to the name by an enclosing `LetBlock`.
    Let(String),
    /// Pop a word and write it to the output sink as a character.
    Putc,
    /// Pop a word and write its decimal form to the output sink.
    Putu,
    /// Write a dump of the stack and memory to the output sink.
    Debug,
}

/// The mathematical value of a `MemoryOperation`.
pub enum MemOpView {
    PushBytes(Seq<u8>),
    StoreByte,
    LoadByte,
    Free,
    Alloc,
}

/// The mathematical value of a `Token`: the same tree with sequences in place
/// of vectors and character sequences in place of strings.
pub enum TokenView {
    Push(usize),
    Math(MathOperator),
    Cmp(CmpOperator),
    Stack(StackOperation),
    Memory(MemOpView),
    FunctionCall(Seq<char>),
    IfBlock(Seq<TokenView>, Seq<TokenView>),
    LoopBlock(Seq<TokenView>),
    WhileBlock(Seq<TokenView>, Seq<TokenView>),
    Continue,
    Break,
    LetBlock(Seq<TokenView>, Seq<Seq<char>>),
    Let(Seq<char>),
    Putc,
    Putu,
    Debug,
}

/// The mathematical value of a memory operation node.
pub open spec fn mem_op_view(op: MemoryOperation) -> MemOpView {
    match op {
        MemoryOperation::PushBytes(data) => MemOpView::PushBytes(data@),
        MemoryOperation::StoreByte => MemOpView::StoreByte,
        MemoryOperation::LoadByte => MemOpView::LoadByte,
        MemoryOperation::Free => MemOpView::Free,
        MemoryOperation::Alloc => MemOpView::Alloc,
    }
}

/// The sequence of character sequences held by a vector of strings.
pub open spec fn strings_view(names: Vec<String>) -> Seq<Seq<char>> {
    Seq::new(names@.len(), |i: int| names@[i]@)
}

/// The mathematical value of one syntax tree node.
pub open spec fn token_view(t: Token) -> TokenView
    decreases t,
{
    match t {
        Token::Push(value) => TokenView::Push(value),
        Token::Math(op) => TokenView::Math(op),
        Token::Cmp(op) => TokenView::Cmp(op),
        Token::Stack(op) => TokenView::Stack(op),
        Token::Memory(op) => TokenView::Memory(mem_op_view(op)),
        Token::FunctionCall(name) => TokenView::FunctionCall(name@),
        Token::IfBlock(t_block, f_block) => TokenView::IfBlock(
            seg_view(t_block),
            seg_view(f_block),
        ),
        Token::LoopBlock(body) => TokenView::LoopBlock(seg_view(body)),
        Token::WhileBlock(cond, body) => TokenView::WhileBlock(seg_view(cond), seg_view(body)),
        Token::Continue => TokenView::Continue,
        Token::Break => TokenView::Break,
        Token::LetBlock(body, names) => TokenView::LetBlock(seg_view(body), strings_view(names)),
        Token::Let(name) => TokenView::Let(name@),
        Token::Putc => TokenView::Putc,
        Token::Putu => TokenView::Putu,
        Token::Debug => TokenView::Debug,
    }
}

/// The mathematical value of a whole block: its nodes' values in order.
pub open spec fn seg_view(body: Vec<Token>) -> Seq<TokenView>
    decreases body,
{
    // The guard keeps the recursion inside the vector, where each node is
    // structurally below the vector itself; out of range the entry is never
    // looked at, so any value serves.
    Seq::new(
        body@.len(),
        |i: int|
            if 0 <= i < body@.len() {
                token_view(body[i])
            } else {
                TokenView::Break
            },
    )
}

} // verus!
