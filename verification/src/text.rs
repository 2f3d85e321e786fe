use vstd::prelude::*;

use crate::parse::is_brace;
use crate::version::{Hfs, SetVersion, model};

verus! {

/// The canonical text of a set: `{`, the canonical texts of its
/// children in order, `}`.  The children of a well-formed value are
/// canonically sorted, so this text is the unique canonical form.
pub open spec fn text_of(v: Hfs) -> Seq<char>
    decreases v,
{
    seq!['{'] + texts_of(v.cs) + seq!['}']
}

/// The concatenated canonical texts of a sequence of sets.
pub open spec fn texts_of(cs: Seq<Hfs>) -> Seq<char>
    decreases cs,
{
    if cs.len() == 0 {
        Seq::empty()
    } else {
        text_of(cs[0]) + texts_of(cs.subrange(1, cs.len() as int))
    }
}

/// Serialization distributes over concatenation of child sequences.
pub proof fn lemma_texts_of_concat(a: Seq<Hfs>, b: Seq<Hfs>)
    ensures
        texts_of(a + b) == texts_of(a) + texts_of(b),
    decreases a.len(),
{
    if a.len() == 0 {
        assert(a + b =~= b);
        assert(texts_of(a) + texts_of(b) =~= texts_of(b));
    } else {
        let t = a.subrange(1, a.len() as int);
        lemma_texts_of_concat(t, b);
        assert((a + b).subrange(1, (a + b).len() as int) =~= t + b);
        assert((a + b)[0] == a[0]);
        assert(text_of(a[0]) + (texts_of(t) + texts_of(b)) =~= (text_of(a[0]) + texts_of(t))
            + texts_of(b));
    }
}

/// The text of one more child appends that child's text.
pub proof fn lemma_texts_of_push(cs: Seq<Hfs>, i: int)
    requires
        0 <= i < cs.len(),
    ensures
        texts_of(cs.subrange(0, i + 1)) == texts_of(cs.subrange(0, i)) + text_of(cs[i]),
{
    assert(cs.subrange(0, i + 1) =~= cs.subrange(0, i) + seq![cs[i]]);
    lemma_texts_of_concat(cs.subrange(0, i), seq![cs[i]]);
    let s = seq![cs[i]];
    assert(s.subrange(1, s.len() as int) =~= Seq::<Hfs>::empty());
    assert(texts_of(s) == text_of(cs[i]) + texts_of(Seq::<Hfs>::empty()));
    assert(texts_of(s) =~= text_of(cs[i]));
}

/// A canonical text consists of brace characters alone.
pub proof fn lemma_text_of_braces(v: Hfs)
    ensures
        forall|i: int| 0 <= i < text_of(v).len() ==> is_brace(#[trigger] text_of(v)[i]),
    decreases v,
{
    lemma_texts_of_braces(v.cs);
    let t = texts_of(v.cs);
    assert forall|i: int| 0 <= i < text_of(v).len() implies is_brace(#[trigger] text_of(v)[i]) by {
        if i == 0 {
            assert(text_of(v)[i] == '{');
        } else if i <= t.len() {
            assert(text_of(v)[i] == t[i - 1]);
        } else {
            assert(text_of(v)[i] == '}');
        }
    }
}

/// The serialized children consist of brace characters alone.
pub proof fn lemma_texts_of_braces(cs: Seq<Hfs>)
    ensures
        forall|i: int| 0 <= i < texts_of(cs).len() ==> is_brace(#[trigger] texts_of(cs)[i]),
    decreases cs,
{
    if cs.len() > 0 {
        lemma_text_of_braces(cs[0]);
        lemma_texts_of_braces(cs.subrange(1, cs.len() as int));
        let h = text_of(cs[0]);
        let t = texts_of(cs.subrange(1, cs.len() as int));
        assert forall|i: int| 0 <= i < texts_of(cs).len() implies is_brace(
            #[trigger] texts_of(cs)[i],
        ) by {
            if i < h.len() {
                assert(texts_of(cs)[i] == h[i]);
            } else {
                assert(texts_of(cs)[i] == t[i - h.len()]);
            }
        }
    }
}

/// Relies on String::push: it appends exactly the one character.
#[verifier::external_body]
fn push_char(s: &mut String, c: char)
    ensures
        final(s)@ == old(s)@ + seq![c],
{
    s.push(c);
}

/// Writes the canonical text of `v` onto the end of `out`.
fn push_text(v: &SetVersion, out: &mut String)
    ensures
        final(out)@ == old(out)@ + text_of(v@),
    decreases *v,
{
    let ghost cs = v@.cs;
    push_char(out, '{');
    let n = v.children.len();
    let mut i: usize = 0;
    while i < n
        invariant
            i <= n,
            n == v.children@.len(),
            cs == v@.cs,
            n == cs.len(),
            out@ == old(out)@ + seq!['{'] + texts_of(cs.subrange(0, i as int)),
        decreases n - i,
    {
        proof {
            assert(model(v.children@[i as int]) == cs[i as int]);
            lemma_texts_of_push(cs, i as int);
        }
        push_text(&v.children[i], out);
        i += 1;
    }
    proof {
        assert(cs.subrange(0, n as int) =~= cs);
    }
    push_char(out, '}');
    proof {
        assert(final(out)@ =~= old(out)@ + text_of(v@));
    }
}

impl SetVersion {
    /// The canonical text of this version: children rendered smallest
    /// first, so every distinct set has exactly one text.
    pub fn to_text(&self) -> (r: String)
        ensures
            r@ == text_of(self@),
    {
        let mut out = String::new();
        push_text(self, &mut out);
        proof {
            assert(out@ =~= text_of(self@));
        }
        out
    }
}

} // verus!
