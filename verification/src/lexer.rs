//! The lexer: turns raw source text into a finite sequence of token strings,
//! one call per token, stripping whitespace and line comments and keeping
//! quoted string literals as single tokens. A scanner is not restartable: a
//! fresh one must be made to scan the text again.

use vstd::prelude::*;

verus! {

use vstd::std_specs::iter::IteratorSpec;

broadcast use vstd::string::next_postcondition, vstd::string::axiom_spec_iter;

/// The mathematical state of a scanner: the text and the scan position.
pub struct TokensV {
    pub code: Seq<char>,
    pub pos: int,
}

/// Scanning inside a string literal: every character up to and including the
/// closing quote joins the token; end of input discards the partial literal.
pub open spec fn scan_string(code: Seq<char>, i: int, acc: Seq<char>) -> Option<(Seq<char>, int)>
    decreases code.len() - i,
{
    if i < 0 || i >= code.len() {
        None
    } else if code[i] == '"' {
        Some((acc.push('"'), i + 1))
    } else {
        scan_string(code, i + 1, acc.push(code[i]))
    }
}

/// One step of the scanner, from position `i` with accumulator `acc`, the
/// previously accumulated character `last`, and whether a line comment is
/// open. Yields the next token and the position after it, or nothing when
/// the input ends first.
///
/// A `//` marker outside a comment discards the `/` just accumulated and
/// opens a comment that runs to the next newline; a quote outside a comment
/// captures a string literal verbatim; whitespace emits the accumulator when
/// it is non-empty. A token still in the accumulator when the input ends is
/// discarded.
pub open spec fn scan(
    code: Seq<char>,
    i: int,
    acc: Seq<char>,
    last: char,
    in_comment: bool,
) -> Option<(Seq<char>, int)>
    decreases code.len() - i,
{
    if i < 0 || i >= code.len() {
        None
    } else {
        let c = code[i];
        if in_comment && c == '\n' {
            scan(code, i + 1, acc, last, false)
        } else if !in_comment && c == '/' && last == '/' {
            let rolled = if acc.len() > 0 {
                acc.drop_last()
            } else {
                acc
            };
            scan(code, i + 1, rolled, last, true)
        } else if !in_comment && c == '"' {
            scan_string(code, i + 1, acc.push('"'))
        } else if c == ' ' || c == '\n' || c == '\t' {
            if !in_comment && acc.len() > 0 {
                Some((acc, i + 1))
            } else {
                scan(code, i + 1, acc, last, in_comment)
            }
        } else if !in_comment {
            scan(code, i + 1, acc.push(c), c, false)
        } else {
            scan(code, i + 1, acc, last, true)
        }
    }
}

/// The next token of `code` from position `i`, and the position after it.
pub open spec fn spec_next_token(code: Seq<char>, i: int) -> Option<(Seq<char>, int)> {
    scan(code, i, Seq::empty(), ' ', false)
}

/// A string-literal scan, when it yields a token, moves the position forward
/// and stays within the text.
proof fn lemma_scan_string_progress(code: Seq<char>, i: int, acc: Seq<char>)
    requires
        scan_string(code, i, acc) is Some,
    ensures
        i < scan_string(code, i, acc).unwrap().1 <= code.len(),
    decreases code.len() - i,
{
    if !(i < 0 || i >= code.len()) && code[i] != '"' {
        lemma_scan_string_progress(code, i + 1, acc.push(code[i]));
    }
}

/// A scan, when it yields a token, moves the position forward and stays
/// within the text.
proof fn lemma_scan_progress(code: Seq<char>, i: int, acc: Seq<char>, last: char, in_comment: bool)
    requires
        scan(code, i, acc, last, in_comment) is Some,
    ensures
        i < scan(code, i, acc, last, in_comment).unwrap().1 <= code.len(),
    decreases code.len() - i,
{
    if i < 0 || i >= code.len() {
    } else {
        let c = code[i];
        if in_comment && c == '\n' {
            lemma_scan_progress(code, i + 1, acc, last, false);
        } else if !in_comment && c == '/' && last == '/' {
            let rolled = if acc.len() > 0 {
                acc.drop_last()
            } else {
                acc
            };
            lemma_scan_progress(code, i + 1, rolled, last, true);
        } else if !in_comment && c == '"' {
            lemma_scan_string_progress(code, i + 1, acc.push('"'));
        } else if c == ' ' || c == '\n' || c == '\t' {
            if !(!in_comment && acc.len() > 0) {
                lemma_scan_progress(code, i + 1, acc, last, in_comment);
            }
        } else if !in_comment {
            lemma_scan_progress(code, i + 1, acc.push(c), c, false);
        } else {
            lemma_scan_progress(code, i + 1, acc, last, true);
        }
    }
}

/// The next token, when there is one, lies strictly beyond the position it
/// was read from, and never beyond the end of the text.
pub proof fn lemma_next_token_progress(code: Seq<char>, i: int)
    requires
        spec_next_token(code, i) is Some,
    ensures
        i < spec_next_token(code, i).unwrap().1 <= code.len(),
{
    lemma_scan_progress(code, i, Seq::empty(), ' ', false);
}

/// Relies on `String::from_iter` over `char`: collecting a vector of
/// characters yields the string holding exactly those characters.
#[verifier::external_body]
pub(crate) fn string_from_chars(chars: &Vec<char>) -> (r: String)
    ensures
        r@ == chars@,
{
    chars.iter().collect()
}

/// A scanner over source text: repeated calls to `next` yield the token
/// strings in order, then `None` at the end of the input.
pub struct Tokens {
    code: Vec<char>,
    pos: usize,
}

impl View for Tokens {
    type V = TokensV;

    closed spec fn view(&self) -> TokensV {
        TokensV { code: self.code@, pos: self.pos as int }
    }
}

impl Tokens {
    /// The position never runs past the end of the text.
    pub open spec fn wf(&self) -> bool {
        self@.pos <= self@.code.len()
    }

    /// A scanner at the start of the given source text.
    pub fn new(code: &str) -> (r: Tokens)
        ensures
            r.wf(),
            r@.code == code@,
            r@.pos == 0,
    {
        let mut it = code.chars();
        let mut chars: Vec<char> = Vec::new();
        loop
            invariant_except_break
                it.obeys_prophetic_iter_laws(),
                it.decrease() is Some,
                chars@ + it.remaining() == code@,
            ensures
                chars@ == code@,
            decreases it.decrease().unwrap(),
        {
            let ghost before = it.remaining();
            match it.next() {
                Some(c) => {
                    chars.push(c);
                    proof {
                        assert(chars@ + it.remaining() =~= code@);
                    }
                },
                None => {
                    proof {
                        assert(chars@ + before =~= chars@);
                    }
                    break ;
                },
            }
        }
        Tokens { code: chars, pos: 0 }
    }

    /// The next token as its characters, advancing the scanner past it;
    /// `None` when the input is exhausted first, leaving the position at the
    /// end of the text.
    pub(crate) fn next_chars(&mut self) -> (r: Option<Vec<char>>)
        requires
            old(self).wf(),
        ensures
            final(self).wf(),
            final(self)@.code == old(self)@.code,
            match spec_next_token(old(self)@.code, old(self)@.pos) {
                Some((t, j)) => r is Some && r.unwrap()@ == t && final(self)@.pos == j,
                None => r is None && final(self)@.pos == old(self)@.code.len(),
            },
    {
        let len: usize = self.code.len();
        let mut acc: Vec<char> = Vec::new();
        let mut last: char = ' ';
        let mut in_comment: bool = false;
        proof {
            assert(acc@ =~= Seq::<char>::empty());
        }
        while self.pos < len
            invariant
                self@.code == old(self)@.code,
                self@.pos <= len,
                len == self@.code.len(),
                spec_next_token(old(self)@.code, old(self)@.pos) == scan(
                    self@.code,
                    self@.pos,
                    acc@,
                    last,
                    in_comment,
                ),
            decreases len - self@.pos,
        {
            let c: char = self.code[self.pos];
            if in_comment && c == '\n' {
                in_comment = false;
                self.pos = self.pos + 1;
            } else if !in_comment && c == '/' && last == '/' {
                let ghost pre_acc = acc@;
                if acc.len() > 0 {
                    acc.pop();
                    proof {
                        assert(acc@ =~= pre_acc.drop_last());
                    }
                }
                in_comment = true;
                self.pos = self.pos + 1;
            } else if !in_comment && c == '"' {
                acc.push('"');
                self.pos = self.pos + 1;
                while self.pos < len
                    invariant
                        self@.code == old(self)@.code,
                        self@.pos <= len,
                        len == self@.code.len(),
                        spec_next_token(old(self)@.code, old(self)@.pos) == scan_string(
                            self@.code,
                            self@.pos,
                            acc@,
                        ),
                    decreases len - self@.pos,
                {
                    let c2: char = self.code[self.pos];
                    acc.push(c2);
                    self.pos = self.pos + 1;
                    if c2 == '"' {
                        return Some(acc);
                    }
                }
                return None;
            } else if c == ' ' || c == '\n' || c == '\t' {
                self.pos = self.pos + 1;
                if !in_comment && acc.len() > 0 {
                    return Some(acc);
                }
            } else if !in_comment {
                acc.push(c);
                last = c;
                self.pos = self.pos + 1;
            } else {
                self.pos = self.pos + 1;
            }
        }
        None
    }

    /// The current scan position, to come back to after looking ahead.
    pub(crate) fn mark(&self) -> (r: usize)
        ensures
            r == self@.pos,
    {
        self.pos
    }

    /// Moves the scanner back to a position previously given by `mark`.
    pub(crate) fn reset(&mut self, p: usize)
        requires
            p as int <= old(self)@.code.len(),
        ensures
            final(self).wf(),
            final(self)@.code == old(self)@.code,
            final(self)@.pos == p,
    {
        self.pos = p;
    }

    /// The next token string, advancing the scanner past it; `None` once the
    /// input is exhausted.
    pub fn next(&mut self) -> (r: Option<String>)
        requires
            old(self).wf(),
        ensures
            final(self).wf(),
            final(self)@.code == old(self)@.code,
            match spec_next_token(old(self)@.code, old(self)@.pos) {
                Some((t, j)) => r is Some && r.unwrap()@ == t && final(self)@.pos == j,
                None => r is None && final(self)@.pos == old(self)@.code.len(),
            },
    {
        match self.next_chars() {
            Some(chars) => Some(string_from_chars(&chars)),
            None => None,
        }
    }
}

} // verus!
