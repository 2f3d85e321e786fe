use vstd::prelude::*;

use vstd::arithmetic::power2::{
    pow2, lemma_pow2_adds, lemma_pow2_strictly_increases, lemma_pow2_unfold, lemma2_to64,
    lemma2_to64_rest,
};

use crate::parse::{chars_of, is_brace};
use crate::text::{lemma_text_of_braces, text_of};
use crate::version::SetVersion;

verus! {

/// The one failure of the fixed-width integer encoding: the text has
/// more brace characters than the integer has bits.
#[derive(Debug, Copy, Clone, PartialEq, Eq)]
pub enum SetVerEncodeError {
    /// The encoding does not fit in 128 bits.
    Overflow,
}

/// The bit a brace stands for: `{` is 0 and `}` is 1.
pub open spec fn bit_of(c: char) -> nat {
    if c == '}' {
        1
    } else {
        0
    }
}

/// The integralternative of a brace text: the text read as a binary
/// numeral, first character most significant.
pub open spec fn int_of_text(s: Seq<char>) -> nat
    decreases s.len(),
{
    if s.len() == 0 {
        0
    } else {
        int_of_text(s.drop_last()) * 2 + bit_of(s.last())
    }
}

/// A byte sequence read as a base-256 numeral, first byte most
/// significant.
pub open spec fn int_of_bytes(b: Seq<u8>) -> nat
    decreases b.len(),
{
    if b.len() == 0 {
        0
    } else {
        int_of_bytes(b.drop_last()) * 256 + b.last() as nat
    }
}

/// Reading a concatenation shifts the left part by the length of the
/// right part.
pub proof fn lemma_int_of_text_concat(a: Seq<char>, b: Seq<char>)
    ensures
        int_of_text(a + b) == int_of_text(a) * pow2(b.len()) + int_of_text(b),
    decreases b.len(),
{
    if b.len() == 0 {
        assert(a + b =~= a);
        lemma2_to64();
        assert(int_of_text(b) == 0);
        assert(pow2(b.len()) == 1);
        assert(int_of_text(a) * 1 == int_of_text(a)) by (nonlinear_arith);
        assert(int_of_text(a + b) == int_of_text(a) * pow2(b.len()) + int_of_text(b));
    } else {
        let b0 = b.drop_last();
        lemma_int_of_text_concat(a, b0);
        assert((a + b).drop_last() =~= a + b0);
        assert((a + b).last() == b.last());
        lemma_pow2_unfold(b.len());
        let x = int_of_text(a);
        let pm = pow2((b.len() - 1) as nat);
        assert(int_of_text(a + b) == int_of_text(a + b0) * 2 + bit_of(b.last()));
        assert(int_of_text(a + b0) == x * pm + int_of_text(b0));
        assert(x * pm * 2 == x * (2 * pm)) by (nonlinear_arith);
        assert(pow2(b.len()) == 2 * pm);
        assert(int_of_text(b) == int_of_text(b0) * 2 + bit_of(b.last()));
        assert(int_of_text(a + b) == x * pow2(b.len()) + (int_of_text(b0) * 2 + bit_of(b.last())));
    }
}

/// A brace text of `n` characters reads below `2^n`.
pub proof fn lemma_int_of_text_bound(s: Seq<char>)
    ensures
        int_of_text(s) < pow2(s.len()),
    decreases s.len(),
{
    if s.len() == 0 {
        lemma2_to64();
    } else {
        lemma_int_of_text_bound(s.drop_last());
        lemma_pow2_unfold(s.len());
    }
}

/// At a fixed length the byte encoding is lossless: two byte
/// sequences of the same length that read as the same integer are the
/// same bytes.
pub proof fn lemma_int_of_bytes_injective(b1: Seq<u8>, b2: Seq<u8>)
    requires
        b1.len() == b2.len(),
        int_of_bytes(b1) == int_of_bytes(b2),
    ensures
        b1 == b2,
    decreases b1.len(),
{
    if b1.len() == 0 {
        assert(b1 =~= b2);
    } else {
        let x1 = int_of_bytes(b1.drop_last());
        let x2 = int_of_bytes(b2.drop_last());
        assert(x1 * 256 + b1.last() == x2 * 256 + b2.last());
        assert(x1 == x2 && b1.last() == b2.last());
        lemma_int_of_bytes_injective(b1.drop_last(), b2.drop_last());
        assert forall|i: int| 0 <= i < b1.len() implies b1[i] == b2[i] by {
            if i < b1.len() - 1 {
                assert(b1[i] == b1.drop_last()[i]);
                assert(b2[i] == b2.drop_last()[i]);
            }
        }
        assert(b1 =~= b2);
    }
}

/// At a fixed length the bit packing is lossless: two brace texts of
/// the same length that read as the same integer are the same text.
pub proof fn lemma_int_of_text_injective(s1: Seq<char>, s2: Seq<char>)
    requires
        s1.len() == s2.len(),
        forall|i: int| 0 <= i < s1.len() ==> is_brace(#[trigger] s1[i]),
        forall|i: int| 0 <= i < s2.len() ==> is_brace(#[trigger] s2[i]),
        int_of_text(s1) == int_of_text(s2),
    ensures
        s1 == s2,
    decreases s1.len(),
{
    if s1.len() == 0 {
        assert(s1 =~= s2);
    } else {
        let x1 = int_of_text(s1.drop_last());
        let x2 = int_of_text(s2.drop_last());
        assert(x1 * 2 + bit_of(s1.last()) == x2 * 2 + bit_of(s2.last()));
        assert(bit_of(s1.last()) == bit_of(s2.last()));
        assert(is_brace(s1[s1.len() - 1]));
        assert(is_brace(s2[s2.len() - 1]));
        assert(s1.last() == s2.last());
        lemma_int_of_text_injective(s1.drop_last(), s2.drop_last());
        assert forall|i: int| 0 <= i < s1.len() implies s1[i] == s2[i] by {
            if i < s1.len() - 1 {
                assert(s1[i] == s1.drop_last()[i]);
                assert(s2[i] == s2.drop_last()[i]);
            }
        }
        assert(s1 =~= s2);
    }
}

/// A byte sequence of `n` bytes reads below `2^(8n)`.
pub proof fn lemma_int_of_bytes_bound(b: Seq<u8>)
    ensures
        int_of_bytes(b) < pow2(8 * b.len()),
    decreases b.len(),
{
    if b.len() == 0 {
        lemma2_to64();
    } else {
        lemma_int_of_bytes_bound(b.drop_last());
        lemma_pow2_adds(8 * (b.len() - 1) as nat, 8);
        lemma2_to64();
    }
}

impl SetVersion {
    /// The integralternative of a brace text as bytes, most
    /// significant byte first: each `{` packs a 0 bit and each `}` a 1
    /// bit, eight to a byte from the right-hand end of the text, so
    /// the first byte holds the leftover high bits.  Never fails,
    /// whatever the length.  The caller must hand in brace characters
    /// only; the brace structure itself is not re-validated here.
    pub fn string_to_integralternative_bytes(setver: &str) -> (r: Vec<u8>)
        requires
            forall|i: int| 0 <= i < setver@.len() ==> is_brace(#[trigger] setver@[i]),
        ensures
            r@.len() == (setver@.len() + 7) / 8,
            int_of_bytes(r@) == int_of_text(setver@),
    {
        let chars = chars_of(setver);
        let n = chars.len();
        let nb = n / 8 + if n % 8 == 0 {
            0
        } else {
            1
        };
        let mut r: Vec<u8> = Vec::new();
        let mut p: usize = 0;
        let mut k: usize = 0;
        proof {
            assert(r@ =~= Seq::<u8>::empty());
            assert(setver@.subrange(0, 0) =~= Seq::<char>::empty());
        }
        #[verifier::loop_isolation(false)]
        while k < nb
            invariant
                k <= nb,
                k == 0 ==> p == 0,
                k > 0 ==> p as int == n - 8 * (nb - k),
                r@.len() == k,
                int_of_bytes(r@) == int_of_text(setver@.subrange(0, p as int)),
            decreases nb - k,
        {
            let ge = if k == 0 {
                n - 8 * (nb - 1)
            } else {
                p + 8
            };
            let ghost gs = p as int;
            let mut b: u8 = 0;
            let mut q = p;
            proof {
                assert(setver@.subrange(gs, gs) =~= Seq::<char>::empty());
                lemma2_to64();
            }
            #[verifier::loop_isolation(false)]
            while q < ge
                invariant
                    gs == p,
                    p <= q <= ge,
                    ge <= n,
                    ge - p <= 8,
                    b as nat == int_of_text(setver@.subrange(gs, q as int)),
                    (b as nat) < pow2((q - p) as nat),
                decreases ge - q,
            {
                let bit: u8 = if chars[q] == '}' {
                    1
                } else {
                    0
                };
                proof {
                    lemma2_to64();
                    if q - p < 7 {
                        lemma_pow2_strictly_increases((q - p) as nat, 7);
                    }
                    lemma_pow2_unfold((q - p + 1) as nat);
                    let sub = setver@.subrange(gs, q + 1);
                    assert(sub.drop_last() =~= setver@.subrange(gs, q as int));
                    assert(sub.last() == setver@[q as int]);
                }
                b = 2 * b + bit;
                q += 1;
            }
            let ghost old_r = r@;
            r.push(b);
            proof {
                let whole = setver@.subrange(0, ge as int);
                let left = setver@.subrange(0, gs);
                let right = setver@.subrange(gs, ge as int);
                assert(whole =~= left + right);
                lemma_int_of_text_concat(left, right);
                assert(r@.drop_last() =~= old_r);
                assert(r@.last() == b);
                if k == 0 {
                    assert(left =~= Seq::<char>::empty());
                    assert(int_of_bytes(r@) == b as nat);
                } else {
                    assert((ge - gs) as nat == 8);
                    lemma2_to64();
                    assert(pow2(8) == 256);
                }
            }
            p = ge;
            k += 1;
        }
        proof {
            assert(p == n);
            assert(setver@.subrange(0, n as int) =~= setver@);
        }
        r
    }

    /// The integralternative of this version's canonical text as
    /// bytes, most significant byte first.  Never fails.
    pub fn to_integralternative_bytes(&self) -> (r: Vec<u8>)
        ensures
            r@.len() == (text_of(self@).len() + 7) / 8,
            int_of_bytes(r@) == int_of_text(text_of(self@)),
    {
        let s = self.to_text();
        proof {
            lemma_text_of_braces(self@);
        }
        Self::string_to_integralternative_bytes(s.as_str())
    }

    /// Packs big-endian bytes into a 128-bit integer; more than 16
    /// bytes cannot be represented and report an overflow.
    pub fn u128_from_vec(vec: Vec<u8>) -> (r: Result<u128, SetVerEncodeError>)
        ensures
            r is Ok <==> vec@.len() <= 16,
            r matches Ok(x) ==> x as nat == int_of_bytes(vec@),
            r matches Err(e) ==> e == SetVerEncodeError::Overflow,
    {
        let n = vec.len();
        if n > 16 {
            return Err(SetVerEncodeError::Overflow);
        }
        let mut result: u128 = 0;
        let mut i: usize = 0;
        proof {
            assert(vec@.subrange(0, 0) =~= Seq::<u8>::empty());
        }
        #[verifier::loop_isolation(false)]
        while i < n
            invariant
                i <= n,
                result as nat == int_of_bytes(vec@.subrange(0, i as int)),
            decreases n - i,
        {
            proof {
                lemma_int_of_bytes_bound(vec@.subrange(0, i as int));
                if 8 * i < 120 {
                    lemma_pow2_strictly_increases(8 * i as nat, 120);
                }
                lemma_pow2_adds(64, 56);
                lemma_pow2_adds(64, 64);
                lemma2_to64();
                lemma2_to64_rest();
                let sub = vec@.subrange(0, i + 1);
                assert(sub.drop_last() =~= vec@.subrange(0, i as int));
                assert(sub.last() == vec@[i as int]);
            }
            result = result * 256 + (vec[i] as u128);
            i += 1;
        }
        proof {
            assert(vec@.subrange(0, n as int) =~= vec@);
        }
        Ok(result)
    }

    /// The integralternative of this version's canonical text as a
    /// 128-bit integer; a text of more than 128 braces does not fit
    /// and reports an overflow, for which the byte encoding is the
    /// non-failing fallback.
    pub fn to_integralternative(&self) -> (r: Result<u128, SetVerEncodeError>)
        ensures
            r is Ok <==> text_of(self@).len() <= 128,
            r matches Ok(x) ==> x as nat == int_of_text(text_of(self@)),
            r matches Err(e) ==> e == SetVerEncodeError::Overflow,
    {
        let bytes = self.to_integralternative_bytes();
        Self::u128_from_vec(bytes)
    }

    /// The integralternative of a raw brace text as a 128-bit
    /// integer, convenient when the text is not in canonical form; a
    /// text of more than 128 characters does not fit and reports an
    /// overflow.  The caller must hand in brace characters only.
    pub fn string_to_integralternative(setver: &str) -> (r: Result<u128, SetVerEncodeError>)
        requires
            forall|i: int| 0 <= i < setver@.len() ==> is_brace(#[trigger] setver@[i]),
        ensures
            r is Ok <==> setver@.len() <= 128,
            r matches Ok(x) ==> x as nat == int_of_text(setver@),
            r matches Err(e) ==> e == SetVerEncodeError::Overflow,
    {
        let bytes = Self::string_to_integralternative_bytes(setver);
        Self::u128_from_vec(bytes)
    }
}

} // verus!
