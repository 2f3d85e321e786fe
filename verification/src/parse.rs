use vstd::prelude::*;

use crate::version::{
    Hfs, SetVersion, add_sorted, find_insert, lemma_add_sorted, lemma_add_sorted_insert, model,
    models_of, sorted_strict, wf,
};

verus! {

/// The errors that can happen when parsing a SetVer text.
#[derive(Debug, Copy, Clone, PartialEq, Eq)]
pub enum SetVerParseError {
    /// An illegal character is in the parsed string. Stores the illegal character.
    IllegalCharacter(char),
    /// A set contains non-unique elements (sets).
    NonUniqueElements,
    /// A curly brace is unclosed.
    UnclosedBrace,
    /// The string is empty.
    Empty,
    /// There's more than one set here.
    TooManySets,
}

/// The alphabet of a SetVer document.
pub open spec fn is_brace(c: char) -> bool {
    c == '{' || c == '}'
}

/// What a left-to-right scan of the brace nesting runs into first.
pub ghost enum ScanEnd {
    /// A character outside the brace alphabet.
    BadChar(char),
    /// The position where the nesting depth reached zero.
    Close(int),
    /// The end of the text, with the depth still positive.
    Unclosed,
}

/// Scans `s` from position `i` at nesting depth `d` and reports the
/// first offending character, the position where the depth reaches
/// zero, or that the text ends first.
pub open spec fn scan(s: Seq<char>, i: int, d: int) -> ScanEnd
    decreases s.len() - i,
{
    if i >= s.len() {
        ScanEnd::Unclosed
    } else if !is_brace(s[i]) {
        ScanEnd::BadChar(s[i])
    } else {
        let d2 = if s[i] == '{' {
            d + 1
        } else {
            d - 1
        };
        if d2 == 0 {
            ScanEnd::Close(i)
        } else {
            scan(s, i + 1, d2)
        }
    }
}

/// What parsing a whole SetVer document yields: the set it denotes, in
/// canonical form, or the first error the scan runs into.  The text
/// must be exactly one value, `'{' Value* '}'`, over braces alone,
/// with pairwise distinct children at every nesting level.
pub open spec fn spec_parse(s: Seq<char>) -> Result<Hfs, SetVerParseError>
    decreases s.len(), 0int,
{
    if s.len() < 2 {
        Err(SetVerParseError::Empty)
    } else if s[0] != '{' {
        Err(SetVerParseError::IllegalCharacter(s[0]))
    } else {
        match scan(s, 1, 1) {
            ScanEnd::BadChar(c) => Err(SetVerParseError::IllegalCharacter(c)),
            ScanEnd::Unclosed => Err(SetVerParseError::UnclosedBrace),
            ScanEnd::Close(c) => if c != s.len() - 1 {
                Err(SetVerParseError::TooManySets)
            } else {
                match spec_parse_items(s.subrange(1, s.len() - 1), Seq::empty()) {
                    Ok(cs) => Ok(Hfs { cs }),
                    Err(e) => Err(e),
                }
            },
        }
    }
}

/// Parses the child segments of an already delimited interior one
/// after the other, placing each parsed child at its canonical
/// position in `acc` and rejecting one already present.
pub open spec fn spec_parse_items(t: Seq<char>, acc: Seq<Hfs>) -> Result<
    Seq<Hfs>,
    SetVerParseError,
>
    decreases t.len(), 1int,
{
    if t.len() == 0 {
        Ok(acc)
    } else {
        match scan(t, 1, 1) {
            ScanEnd::BadChar(c) => Err(SetVerParseError::IllegalCharacter(c)),
            ScanEnd::Unclosed => Err(SetVerParseError::UnclosedBrace),
            ScanEnd::Close(e) => if !(1 <= e && e < t.len()) {
                // a scan that starts inside the text closes inside it;
                // this arm is never reached
                Err(SetVerParseError::UnclosedBrace)
            } else {
                match spec_parse(t.subrange(0, e + 1)) {
                    Ok(v) => if acc.contains(v) {
                        Err(SetVerParseError::NonUniqueElements)
                    } else {
                        spec_parse_items(t.subrange(e + 1, t.len() as int), add_sorted(acc, v))
                    },
                    Err(er) => Err(er),
                }
            },
        }
    }
}

/// Relies on str::chars: iterating a string slice yields exactly its
/// characters, in order.
#[verifier::external_body]
pub(crate) fn chars_of(s: &str) -> (r: Vec<char>)
    ensures
        r@ == s@,
{
    s.chars().collect()
}

/// Finds the position whose brace closes the nesting opened before
/// `start + 1`, mirroring the depth scan of the grammar.
fn scan_close(chars: &Vec<char>, start: usize, end: usize) -> (r: Result<
    usize,
    SetVerParseError,
>)
    requires
        start < end <= chars@.len(),
    ensures
        ({
            let s = chars@.subrange(start as int, end as int);
            &&& (r matches Ok(c) ==> start < c < end && scan(s, 1, 1) == ScanEnd::Close(
                c - start,
            ))
            &&& (r matches Err(e) ==> match scan(s, 1, 1) {
                ScanEnd::BadChar(ch) => e == SetVerParseError::IllegalCharacter(ch),
                ScanEnd::Unclosed => e == SetVerParseError::UnclosedBrace,
                ScanEnd::Close(_) => false,
            })
        }),
{
    let ghost s = chars@.subrange(start as int, end as int);
    let mut i: usize = start + 1;
    let mut d: usize = 1;
    while i < end
        invariant
            start < end <= chars@.len(),
            start + 1 <= i <= end,
            1 <= d,
            d <= i - start,
            s == chars@.subrange(start as int, end as int),
            scan(s, 1, 1) == scan(s, i - start, d as int),
        decreases end - i,
    {
        proof {
            assert(s[i - start] == chars@[i as int]);
        }
        let c = chars[i];
        if c == '{' {
            d += 1;
            i += 1;
        } else if c == '}' {
            d -= 1;
            if d == 0 {
                return Ok(i);
            }
            i += 1;
        } else {
            return Err(SetVerParseError::IllegalCharacter(c));
        }
    }
    proof {
        assert(scan(s, i - start, d as int) == ScanEnd::Unclosed);
    }
    Err(SetVerParseError::UnclosedBrace)
}

/// Parses `chars[start..end)` as one complete SetVer document.
fn parse_range(chars: &Vec<char>, start: usize, end: usize) -> (r: Result<
    SetVersion,
    SetVerParseError,
>)
    requires
        start <= end <= chars@.len(),
    ensures
        ({
            let s = chars@.subrange(start as int, end as int);
            &&& (r is Ok <==> spec_parse(s) is Ok)
            &&& (r matches Ok(v) ==> spec_parse(s) == Ok::<Hfs, SetVerParseError>(v@) && wf(v@))
            &&& (r matches Err(e) ==> spec_parse(s) == Err::<Hfs, SetVerParseError>(e))
        }),
    decreases end - start,
{
    let ghost s = chars@.subrange(start as int, end as int);
    if end - start < 2 {
        return Err(SetVerParseError::Empty);
    }
    proof {
        assert(s[0] == chars@[start as int]);
    }
    let first = chars[start];
    if first != '{' {
        return Err(SetVerParseError::IllegalCharacter(first));
    }
    let close = match scan_close(chars, start, end) {
        Ok(c) => c,
        Err(e) => {
            return Err(e);
        },
    };
    if close != end - 1 {
        return Err(SetVerParseError::TooManySets);
    }
    let ghost interior = s.subrange(1, s.len() - 1);
    proof {
        assert(interior =~= chars@.subrange(start + 1, close as int));
    }
    let mut children: Vec<SetVersion> = Vec::new();
    proof {
        assert(models_of(children@) =~= Seq::<Hfs>::empty());
    }
    let mut j = start + 1;
    #[verifier::loop_isolation(false)]
    while j < close
        invariant
            start + 1 <= j <= close,
            close < end <= chars@.len(),
            close == end - 1,
            s == chars@.subrange(start as int, end as int),
            interior == s.subrange(1, s.len() - 1),
            sorted_strict(models_of(children@)),
            forall|k: int| 0 <= k < children@.len() ==> wf(#[trigger] models_of(children@)[k]),
            spec_parse_items(interior, Seq::empty()) == spec_parse_items(
                chars@.subrange(j as int, close as int),
                models_of(children@),
            ),
        decreases close - j,
    {
        let ghost t = chars@.subrange(j as int, close as int);
        let ghost acc = models_of(children@);
        let e = match scan_close(chars, j, close) {
            Ok(e) => e,
            Err(err) => {
                proof {
                    assert(spec_parse_items(t, acc) == Err::<Seq<Hfs>, SetVerParseError>(err));
                    assert(spec_parse(s) == Err::<Hfs, SetVerParseError>(err));
                }
                return Err(err);
            },
        };
        proof {
            assert(scan(t, 1, 1) == ScanEnd::Close(e - j));
            assert(1 <= e - j < t.len());
            assert(t.subrange(0, e - j + 1) =~= chars@.subrange(j as int, e + 1));
        }
        let child = match parse_range(chars, j, e + 1) {
            Ok(v) => v,
            Err(err) => {
                proof {
                    assert(spec_parse(t.subrange(0, e - j + 1)) == Err::<
                        Hfs,
                        SetVerParseError,
                    >(err));
                    assert(spec_parse_items(t, acc) == Err::<Seq<Hfs>, SetVerParseError>(err));
                    assert(spec_parse(s) == Err::<Hfs, SetVerParseError>(err));
                }
                return Err(err);
            },
        };
        let (pos, dup) = find_insert(&children, &child);
        if dup {
            proof {
                assert(acc.contains(child@));
                assert(spec_parse_items(t, acc) == Err::<Seq<Hfs>, SetVerParseError>(
                    SetVerParseError::NonUniqueElements,
                ));
                assert(spec_parse(s) == Err::<Hfs, SetVerParseError>(
                    SetVerParseError::NonUniqueElements,
                ));
            }
            return Err(SetVerParseError::NonUniqueElements);
        }
        proof {
            lemma_add_sorted_insert(acc, child@, pos as int);
            lemma_add_sorted(acc, child@);
        }
        children.insert(pos, child);
        proof {
            assert(models_of(children@) =~= acc.insert(pos as int, child@));
            assert(models_of(children@) == add_sorted(acc, child@));
            assert forall|k: int| 0 <= k < children@.len() implies wf(
                #[trigger] models_of(children@)[k],
            ) by {
                let x = models_of(children@)[k];
                assert(models_of(children@).contains(x));
                if acc.contains(x) {
                    let m = choose|m: int| 0 <= m < acc.len() && acc[m] == x;
                }
            }
            assert(t.subrange(e - j + 1, t.len() as int) =~= chars@.subrange(e + 1, close as int));
        }
        j = e + 1;
    }
    proof {
        assert(chars@.subrange(j as int, close as int) =~= Seq::<char>::empty());
        assert(spec_parse_items(interior, Seq::empty()) == Ok::<Seq<Hfs>, SetVerParseError>(
            models_of(children@),
        ));
    }
    let result = SetVersion { children };
    proof {
        assert(result@.cs =~= models_of(result.children@));
        assert(spec_parse(s) == Ok::<Hfs, SetVerParseError>(result@));
        assert(wf(result@));
    }
    Ok(result)
}

impl SetVersion {
    /// Parses a SetVer text: exactly one value `'{' Value* '}'` over
    /// braces alone, children pairwise distinct at every level.  The
    /// result is the canonical value of the set the text denotes, or
    /// the first error the scan runs into.
    pub fn from_str(s: &str) -> (r: Result<SetVersion, SetVerParseError>)
        ensures
            r is Ok <==> spec_parse(s@) is Ok,
            r matches Ok(v) ==> spec_parse(s@) == Ok::<Hfs, SetVerParseError>(v@) && wf(v@),
            r matches Err(e) ==> spec_parse(s@) == Err::<Hfs, SetVerParseError>(e),
    {
        let chars = chars_of(s);
        let n = chars.len();
        let r = parse_range(&chars, 0, n);
        proof {
            assert(chars@.subrange(0, n as int) =~= s@);
        }
        r
    }
}

} // verus!
