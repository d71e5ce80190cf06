//! The output sink: a byte buffer that captures everything the evaluator
//! emits. The embedding program writes the captured bytes to its real
//! destination once a run has finished.

use vstd::prelude::*;

verus! {

/// The decimal digits of `n`, as ASCII bytes, most significant first.
pub open spec fn dec_digits(n: nat) -> Seq<u8>
    decreases n,
{
    if n < 10 {
        seq![(48 + n) as u8]
    } else {
        dec_digits(n / 10).push((48 + n % 10) as u8)
    }
}

/// A capturing output sink: bytes written to it stay in order.
#[derive(Debug)]
pub struct Io {
    out: Vec<u8>,
}

impl View for Io {
    type V = Seq<u8>;

    closed spec fn view(&self) -> Seq<u8> {
        self.out@
    }
}

impl Io {
    /// A fresh, empty sink.
    pub fn new() -> (r: Io)
        ensures
            r@ == Seq::<u8>::empty(),
    {
        Io { out: Vec::new() }
    }

    /// The bytes written so far, in order.
    pub fn bytes(&self) -> (r: &Vec<u8>)
        ensures
            r@ == self@,
    {
        &self.out
    }

    /// Appends one byte.
    pub(crate) fn write_byte(&mut self, b: u8)
        ensures
            final(self)@ == old(self)@.push(b),
    {
        self.out.push(b);
    }

    /// Appends a run of bytes, in order.
    pub(crate) fn write_bytes(&mut self, bs: &Vec<u8>)
        ensures
            final(self)@ == old(self)@ + bs@,
    {
        let mut k: usize = 0;
        proof {
            assert(self@ =~= old(self)@ + bs@.subrange(0, 0));
        }
        while k < bs.len()
            invariant
                k <= bs@.len(),
                self@ == old(self)@ + bs@.subrange(0, k as int),
            decreases bs@.len() - k,
        {
            let ghost pre = self@;
            self.out.push(bs[k]);
            proof {
                assert(self@ =~= old(self)@ + bs@.subrange(0, k as int + 1));
            }
            k = k + 1;
        }
        proof {
            assert(bs@.subrange(0, bs@.len() as int) =~= bs@);
        }
    }

    /// Writes the decimal form of a machine word.
    pub(crate) fn write_decimal(&mut self, n: usize)
        ensures
            final(self)@ == old(self)@ + dec_digits(n as nat),
    {
        let ds = format_decimal(n);
        self.write_bytes(&ds);
    }
}

/// Reversing after appending one element puts that element in front.
proof fn lemma_reverse_push(s: Seq<u8>, x: u8)
    ensures
        s.push(x).reverse() == seq![x] + s.reverse(),
{
    assert(s.push(x).reverse() =~= seq![x] + s.reverse());
}

/// The decimal digits of a machine word, most significant first.
pub(crate) fn format_decimal(n: usize) -> (r: Vec<u8>)
    ensures
        r@ == dec_digits(n as nat),
{
    let mut rev: Vec<u8> = Vec::new();
    let mut m: usize = n;
    proof {
        assert(rev@.reverse() =~= Seq::<u8>::empty());
    }
    loop
        invariant_except_break
            dec_digits(n as nat) == dec_digits(m as nat) + rev@.reverse(),
        ensures
            dec_digits(n as nat) == rev@.reverse(),
        decreases m,
    {
        let ghost pre = rev@;
        let d: u8 = 48 + (m % 10) as u8;
        rev.push(d);
        proof {
            lemma_reverse_push(pre, d);
        }
        if m < 10 {
            proof {
                assert(dec_digits(m as nat) + pre.reverse() =~= seq![d] + pre.reverse());
                assert(dec_digits(n as nat) =~= rev@.reverse());
            }
            break ;
        }
        proof {
            assert(dec_digits(m as nat) == dec_digits(m as nat / 10).push(d));
            assert(dec_digits(m as nat / 10).push(d) + pre.reverse() =~= dec_digits(
                m as nat / 10,
            ) + (seq![d] + pre.reverse()));
        }
        m = m / 10;
    }
    let mut out: Vec<u8> = Vec::new();
    let mut k: usize = rev.len();
    while k > 0
        invariant
            k <= rev@.len(),
            out@.len() == rev@.len() - k,
            forall|x: int| 0 <= x < out@.len() ==> #[trigger] out@[x] == rev@[rev@.len() - 1 - x],
        decreases k,
    {
        k = k - 1;
        out.push(rev[k]);
    }
    proof {
        assert(out@ =~= rev@.reverse());
    }
    out
}

} // verus!
