use vstd::prelude::*;

use crate::parse::{ScanEnd, SetVerParseError, scan, spec_parse, spec_parse_items};
use crate::text::{text_of, texts_of};
use crate::version::{
    Hfs, add_sorted, lemma_add_sorted, lemma_sorted_unique, sorted_strict, subset_of, wf,
};

verus! {

/// The subset relation is reflexive: every set is a subset of itself.
pub proof fn lemma_subset_refl(a: Hfs)
    ensures
        subset_of(a, a),
{
}

/// The subset relation is transitive.
pub proof fn lemma_subset_trans(a: Hfs, b: Hfs, c: Hfs)
    requires
        subset_of(a, b),
        subset_of(b, c),
    ensures
        subset_of(a, c),
{
    assert forall|i: int| 0 <= i < a.cs.len() implies c.cs.contains(#[trigger] a.cs[i]) by {
        assert(b.cs.contains(a.cs[i]));
        let j = choose|j: int| 0 <= j < b.cs.len() && b.cs[j] == a.cs[i];
        assert(c.cs.contains(b.cs[j]));
    }
}

/// Equal sets are subsets of each other.
pub proof fn lemma_eq_mutual_subset(a: Hfs, b: Hfs)
    requires
        a == b,
    ensures
        subset_of(a, b),
        subset_of(b, a),
{
}

/// On canonical values, mutual subsets are the same set: the subset
/// relation orders versions, it does not merely preorder them.
pub proof fn lemma_subset_antisym(a: Hfs, b: Hfs)
    requires
        wf(a),
        wf(b),
        subset_of(a, b),
        subset_of(b, a),
    ensures
        a == b,
{
    assert forall|x: Hfs| a.cs.contains(x) <==> b.cs.contains(x) by {
        if a.cs.contains(x) {
            let i = choose|i: int| 0 <= i < a.cs.len() && a.cs[i] == x;
            assert(b.cs.contains(a.cs[i]));
        }
        if b.cs.contains(x) {
            let i = choose|i: int| 0 <= i < b.cs.len() && b.cs[i] == x;
            assert(a.cs.contains(b.cs[i]));
        }
    }
    lemma_sorted_unique(a.cs, b.cs);
    assert(a =~= b);
}

/// A strict subset one way rules out a strict subset the other way,
/// for comparable sets.  Strict subset is derived as "not (the other
/// is a subset of this one)", so for two sets neither of which is a
/// subset of the other the derived test holds in both directions; the
/// law is stated for the comparable pairs.
pub proof fn lemma_strict_subset_asym(a: Hfs, b: Hfs)
    requires
        subset_of(a, b) || subset_of(b, a),
    ensures
        !subset_of(b, a) ==> subset_of(a, b),
{
}

/// A scan at positive depth that walks onto the text of a set leaves
/// the depth where it was and walks out at the far end: value texts
/// are balanced.
proof fn lemma_scan_across_value(v: Hfs, s: Seq<char>, i: int, d: int)
    requires
        0 <= i,
        i + text_of(v).len() <= s.len(),
        s.subrange(i, i + text_of(v).len()) == text_of(v),
        d >= 1,
    ensures
        scan(s, i, d) == scan(s, i + text_of(v).len(), d),
    decreases v, 0int,
{
    let t = text_of(v);
    let inner = texts_of(v.cs);
    assert(s[i] == t[0]);
    assert(t[0] == '{');
    assert(s.subrange(i + 1, i + 1 + inner.len()) =~= inner) by {
        assert forall|k: int| 0 <= k < inner.len() implies s.subrange(
            i + 1,
            i + 1 + inner.len(),
        )[k] == inner[k] by {
            assert(s[i + 1 + k] == t[1 + k]);
            assert(t[1 + k] == inner[k]);
        }
    }
    lemma_scan_across_texts(v.cs, s, i + 1, d + 1);
    assert(s[i + 1 + inner.len()] == t[t.len() - 1]);
    assert(t[t.len() - 1] == '}');
    assert(scan(s, i, d) == scan(s, i + 1, d + 1));
    assert(scan(s, i + 1 + inner.len(), d + 1) == scan(s, i + t.len(), d));
}

/// A scan at positive depth across the texts of a row of sets leaves
/// the depth unchanged.
proof fn lemma_scan_across_texts(cs: Seq<Hfs>, s: Seq<char>, i: int, d: int)
    requires
        0 <= i,
        i + texts_of(cs).len() <= s.len(),
        s.subrange(i, i + texts_of(cs).len()) == texts_of(cs),
        d >= 1,
    ensures
        scan(s, i, d) == scan(s, i + texts_of(cs).len(), d),
    decreases cs, 1int,
{
    if cs.len() > 0 {
        let t0 = text_of(cs[0]);
        let rest = texts_of(cs.subrange(1, cs.len() as int));
        let whole = texts_of(cs);
        assert(whole == t0 + rest);
        assert(s.subrange(i, i + t0.len()) =~= t0) by {
            assert forall|k: int| 0 <= k < t0.len() implies s.subrange(i, i + t0.len())[k]
                == t0[k] by {
                assert(s[i + k] == whole[k]);
                assert(whole[k] == t0[k]);
            }
        }
        lemma_scan_across_value(cs[0], s, i, d);
        assert(s.subrange(i + t0.len(), i + t0.len() + rest.len()) =~= rest) by {
            assert forall|k: int| 0 <= k < rest.len() implies s.subrange(
                i + t0.len(),
                i + t0.len() + rest.len(),
            )[k] == rest[k] by {
                assert(s[i + t0.len() + k] == whole[t0.len() + k]);
                assert(whole[t0.len() + k] == rest[k]);
            }
        }
        lemma_scan_across_texts(cs.subrange(1, cs.len() as int), s, i + t0.len(), d);
    }
}

/// Scanning just inside the text of a set closes exactly at its final
/// brace.
proof fn lemma_scan_value_close(v: Hfs, s: Seq<char>, i: int)
    requires
        0 <= i,
        i + text_of(v).len() <= s.len(),
        s.subrange(i, i + text_of(v).len()) == text_of(v),
    ensures
        scan(s, i + 1, 1) == ScanEnd::Close(i + text_of(v).len() - 1),
{
    let t = text_of(v);
    let inner = texts_of(v.cs);
    assert(s.subrange(i + 1, i + 1 + inner.len()) =~= inner) by {
        assert forall|k: int| 0 <= k < inner.len() implies s.subrange(
            i + 1,
            i + 1 + inner.len(),
        )[k] == inner[k] by {
            assert(s[i + 1 + k] == t[1 + k]);
            assert(t[1 + k] == inner[k]);
        }
    }
    lemma_scan_across_texts(v.cs, s, i + 1, 1);
    assert(s[i + 1 + inner.len()] == t[t.len() - 1]);
    assert(t[t.len() - 1] == '}');
}

/// No member repeats.
pub open spec fn distinct_seq(cs: Seq<Hfs>) -> bool {
    forall|i: int, j: int| 0 <= i < j < cs.len() ==> cs[i] != cs[j]
}

/// The text `s` is a grammatical SetVer document and denotes exactly
/// the canonical set `v`: it is one balanced value whose child
/// segments denote the members of `v`, one each, in any order.
pub open spec fn denotes(s: Seq<char>, v: Hfs) -> bool
    decreases s.len(), 0int,
{
    &&& wf(v)
    &&& s.len() >= 2
    &&& s[0] == '{'
    &&& scan(s, 1, 1) == ScanEnd::Close(s.len() - 1)
    &&& denotes_items(s.subrange(1, s.len() - 1), v.cs)
}

/// The interior `t` splits into child segments that denote the
/// members of `cs`, each member matched by exactly one segment.
pub open spec fn denotes_items(t: Seq<char>, cs: Seq<Hfs>) -> bool
    decreases t.len(), 1int,
{
    if t.len() == 0 {
        cs.len() == 0
    } else {
        match scan(t, 1, 1) {
            ScanEnd::Close(e) => 1 <= e && e < t.len() && (exists|j: int|
                0 <= j < cs.len() && denotes(t.subrange(0, e + 1), cs[j]) && denotes_items(
                    t.subrange(e + 1, t.len() as int),
                    cs.remove(j),
                )),
            _ => false,
        }
    }
}

/// How membership moves across removing one position.
proof fn lemma_remove_facts(cs: Seq<Hfs>, j: int)
    requires
        0 <= j < cs.len(),
    ensures
        forall|x: Hfs| cs.remove(j).contains(x) ==> cs.contains(x),
        forall|x: Hfs| cs.contains(x) <==> (x == cs[j] || cs.remove(j).contains(x)),
        distinct_seq(cs) ==> distinct_seq(cs.remove(j)),
        distinct_seq(cs) ==> (forall|x: Hfs| cs.remove(j).contains(x) ==> x != cs[j]),
{
    let cs2 = cs.remove(j);
    assert(cs2 =~= cs.subrange(0, j) + cs.subrange(j + 1, cs.len() as int));
    assert forall|k: int| 0 <= k < cs2.len() implies cs2[k] == (if k < j {
        cs[k]
    } else {
        cs[k + 1]
    }) by {
        if k < j {
            assert(cs2[k] == cs.subrange(0, j)[k]);
        } else {
            assert(cs2[k] == cs.subrange(j + 1, cs.len() as int)[k - j]);
        }
    }
    assert forall|x: Hfs| cs2.contains(x) implies cs.contains(x) by {
        let k = choose|k: int| 0 <= k < cs2.len() && cs2[k] == x;
        if k < j {
            assert(cs[k] == x);
        } else {
            assert(cs[k + 1] == x);
        }
    }
    assert forall|x: Hfs| cs.contains(x) implies (x == cs[j] || cs2.contains(x)) by {
        let k = choose|k: int| 0 <= k < cs.len() && cs[k] == x;
        if k < j {
            assert(cs2[k] == x);
            assert(cs2.contains(x));
        } else if k > j {
            assert(cs2[k - 1] == x);
            assert(cs2.contains(x));
        }
    }
    if distinct_seq(cs) {
        assert forall|x: Hfs| cs2.contains(x) implies x != cs[j] by {
            let k = choose|k: int| 0 <= k < cs2.len() && cs2[k] == x;
        }
    }
}

/// The canonical text of a well-formed set denotes that set.
pub proof fn lemma_text_of_denotes(v: Hfs)
    requires
        wf(v),
    ensures
        denotes(text_of(v), v),
    decreases v, 0int,
{
    let t = text_of(v);
    let inner = texts_of(v.cs);
    assert(t.len() == inner.len() + 2);
    assert(t[0] == '{');
    assert(t.subrange(0, t.len() as int) =~= t);
    lemma_scan_value_close(v, t, 0);
    assert(t.subrange(1, t.len() - 1) =~= inner);
    lemma_texts_of_denotes(v.cs);
}

/// The serialized children of a row of well-formed sets denote that
/// row, segment by segment in order.
proof fn lemma_texts_of_denotes(cs: Seq<Hfs>)
    requires
        forall|k: int| 0 <= k < cs.len() ==> wf(#[trigger] cs[k]),
    ensures
        denotes_items(texts_of(cs), cs),
    decreases cs, 1int,
{
    if cs.len() > 0 {
        let whole = texts_of(cs);
        let t0 = text_of(cs[0]);
        let rest_cs = cs.subrange(1, cs.len() as int);
        let rest = texts_of(rest_cs);
        assert(whole == t0 + rest);
        assert(t0.len() == texts_of(cs[0].cs).len() + 2);
        assert(whole.subrange(0, t0.len() as int) =~= t0);
        lemma_scan_value_close(cs[0], whole, 0);
        lemma_text_of_denotes(cs[0]);
        lemma_texts_of_denotes(rest_cs);
        assert(whole.subrange(t0.len() as int, whole.len() as int) =~= rest);
        assert(cs.remove(0) =~= rest_cs);
        let e = t0.len() - 1;
        assert(scan(whole, 1, 1) == ScanEnd::Close(e));
        assert(whole.subrange(0, e + 1) == t0);
        assert(0 <= 0 < cs.len() && denotes(whole.subrange(0, e + 1), cs[0]) && denotes_items(
            whole.subrange(e + 1, whole.len() as int),
            cs.remove(0),
        ));
        assert(denotes_items(whole, cs));
    }
}

/// A text that denotes a set parses to exactly that set.
pub proof fn lemma_denotes_parse(s: Seq<char>, v: Hfs)
    requires
        denotes(s, v),
    ensures
        spec_parse(s) == Ok::<Hfs, SetVerParseError>(v),
    decreases s.len(), 0int,
{
    let interior = s.subrange(1, s.len() - 1);
    assert forall|i: int, j: int| 0 <= i < j < v.cs.len() implies v.cs[i] != v.cs[j] by {
        crate::version::lemma_sorted_distinct(v.cs, i, j);
    }
    lemma_denotes_parse_items(interior, v.cs, Seq::empty());
    let res = spec_parse_items(interior, Seq::empty())->Ok_0;
    assert forall|x: Hfs| res.contains(x) <==> v.cs.contains(x) by {
        if Seq::<Hfs>::empty().contains(x) {
            let k = choose|k: int| 0 <= k < 0 && Seq::<Hfs>::empty()[k] == x;
        }
    }
    lemma_sorted_unique(res, v.cs);
    assert(Hfs { cs: res } =~= v);
}

/// Parsing delimited segments that denote the members of `cs`, with
/// the already collected members `acc` disjoint from them, succeeds
/// and collects exactly the union, canonically sorted.
proof fn lemma_denotes_parse_items(t: Seq<char>, cs: Seq<Hfs>, acc: Seq<Hfs>)
    requires
        denotes_items(t, cs),
        sorted_strict(acc),
        distinct_seq(cs),
        forall|x: Hfs| cs.contains(x) ==> !acc.contains(x),
    ensures
        spec_parse_items(t, acc) is Ok,
        sorted_strict(spec_parse_items(t, acc)->Ok_0),
        forall|x: Hfs|
            (spec_parse_items(t, acc)->Ok_0).contains(x) <==> acc.contains(x) || cs.contains(x),
    decreases t.len(), 1int,
{
    if t.len() == 0 {
        assert(spec_parse_items(t, acc) == Ok::<Seq<Hfs>, SetVerParseError>(acc));
        assert forall|x: Hfs| acc.contains(x) <==> acc.contains(x) || cs.contains(x) by {
            if cs.contains(x) {
                let k = choose|k: int| 0 <= k < cs.len() && cs[k] == x;
            }
        }
    } else {
        let e = scan(t, 1, 1)->Close_0;
        let j = choose|j: int|
            0 <= j < cs.len() && denotes(t.subrange(0, e + 1), cs[j]) && denotes_items(
                t.subrange(e + 1, t.len() as int),
                cs.remove(j),
            );
        lemma_denotes_parse(t.subrange(0, e + 1), cs[j]);
        assert(cs.contains(cs[j]));
        assert(!acc.contains(cs[j]));
        lemma_add_sorted(acc, cs[j]);
        lemma_remove_facts(cs, j);
        let acc2 = add_sorted(acc, cs[j]);
        let cs2 = cs.remove(j);
        assert forall|x: Hfs| cs2.contains(x) implies !acc2.contains(x) by {
            assert(cs.contains(x));
            assert(!acc.contains(x));
            assert(x != cs[j]);
        }
        lemma_denotes_parse_items(t.subrange(e + 1, t.len() as int), cs2, acc2);
        assert(spec_parse_items(t, acc) == spec_parse_items(
            t.subrange(e + 1, t.len() as int),
            acc2,
        ));
        let res = spec_parse_items(t, acc)->Ok_0;
        assert forall|x: Hfs| res.contains(x) <==> acc.contains(x) || cs.contains(x) by {
            assert(res.contains(x) <==> acc2.contains(x) || cs2.contains(x));
            assert(acc2.contains(x) <==> acc.contains(x) || x == cs[j]);
            assert(cs.contains(x) <==> (x == cs[j] || cs2.contains(x)));
        }
    }
}

/// A text that parses to a set denotes it: parsing accepts nothing
/// outside the grammar.
pub proof fn lemma_parse_denotes(s: Seq<char>, v: Hfs)
    requires
        spec_parse(s) == Ok::<Hfs, SetVerParseError>(v),
    ensures
        denotes(s, v),
    decreases s.len(), 0int,
{
    let interior = s.subrange(1, s.len() - 1);
    let e = scan(s, 1, 1)->Close_0;
    assert(sorted_strict(Seq::<Hfs>::empty()));
    assert forall|x: Hfs| Seq::<Hfs>::empty().contains(x) implies wf(x) by {
        let k = choose|k: int| 0 <= k < 0 && Seq::<Hfs>::empty()[k] == x;
    }
    lemma_parse_items_denotes(interior, Seq::empty());
    let res = spec_parse_items(interior, Seq::empty())->Ok_0;
    let cs = choose|cs: Seq<Hfs>|
        {
            &&& denotes_items(interior, cs)
            &&& distinct_seq(cs)
            &&& forall|x: Hfs| cs.contains(x) ==> !Seq::<Hfs>::empty().contains(x)
            &&& forall|x: Hfs| #[trigger]
                res.contains(x) <==> Seq::<Hfs>::empty().contains(x) || cs.contains(x)
        };
    assert(v.cs == res);
    assert(wf(v)) by {
        assert forall|i: int| 0 <= i < v.cs.len() implies wf(#[trigger] v.cs[i]) by {
            assert(res.contains(res[i]));
        }
    }
    // the members of `res` are exactly the members of `cs`; swap the
    // matched row for the canonical one
    assert forall|i: int, j: int| 0 <= i < j < v.cs.len() implies v.cs[i] != v.cs[j] by {
        crate::version::lemma_sorted_distinct(v.cs, i, j);
    }
    lemma_denotes_items_exchange(interior, cs, v.cs);
}

/// A segment row that denotes one listing of a collection denotes
/// every other duplicate-free listing of the same members.
proof fn lemma_denotes_items_exchange(t: Seq<char>, cs1: Seq<Hfs>, cs2: Seq<Hfs>)
    requires
        denotes_items(t, cs1),
        distinct_seq(cs1),
        distinct_seq(cs2),
        forall|x: Hfs| cs1.contains(x) <==> cs2.contains(x),
    ensures
        denotes_items(t, cs2),
    decreases t.len(),
{
    if t.len() == 0 {
        if cs2.len() > 0 {
            assert(cs2.contains(cs2[0]));
            let k = choose|k: int| 0 <= k < cs1.len() && cs1[k] == cs2[0];
        }
    } else {
        let e = scan(t, 1, 1)->Close_0;
        let j1 = choose|j: int|
            0 <= j < cs1.len() && denotes(t.subrange(0, e + 1), cs1[j]) && denotes_items(
                t.subrange(e + 1, t.len() as int),
                cs1.remove(j),
            );
        assert(cs1.contains(cs1[j1]));
        assert(cs2.contains(cs1[j1]));
        let j2 = choose|j: int| 0 <= j < cs2.len() && cs2[j] == cs1[j1];
        lemma_remove_facts(cs1, j1);
        lemma_remove_facts(cs2, j2);
        assert forall|x: Hfs| cs1.remove(j1).contains(x) <==> cs2.remove(j2).contains(x) by {
            if cs1.remove(j1).contains(x) {
                assert(cs1.contains(x));
                assert(x != cs1[j1]);
                assert(cs2.contains(x));
            }
            if cs2.remove(j2).contains(x) {
                assert(cs2.contains(x));
                assert(x != cs2[j2]);
                assert(cs1.contains(x));
            }
        }
        lemma_denotes_items_exchange(
            t.subrange(e + 1, t.len() as int),
            cs1.remove(j1),
            cs2.remove(j2),
        );
        assert(0 <= j2 < cs2.len() && denotes(t.subrange(0, e + 1), cs2[j2]) && denotes_items(
            t.subrange(e + 1, t.len() as int),
            cs2.remove(j2),
        ));
    }
}

/// Parsing a row of segments accepts exactly rows whose segments
/// denote pairwise distinct new members, and collects them.
proof fn lemma_parse_items_denotes(t: Seq<char>, acc: Seq<Hfs>)
    requires
        spec_parse_items(t, acc) is Ok,
        sorted_strict(acc),
        forall|x: Hfs| acc.contains(x) ==> wf(x),
    ensures
        sorted_strict(spec_parse_items(t, acc)->Ok_0),
        forall|x: Hfs| #[trigger] (spec_parse_items(t, acc)->Ok_0).contains(x) ==> wf(x),
        exists|cs: Seq<Hfs>|
            {
                &&& denotes_items(t, cs)
                &&& distinct_seq(cs)
                &&& forall|x: Hfs| cs.contains(x) ==> !acc.contains(x)
                &&& forall|x: Hfs| #[trigger]
                    (spec_parse_items(t, acc)->Ok_0).contains(x) <==> acc.contains(x)
                        || cs.contains(x)
            },
    decreases t.len(), 1int,
{
    if t.len() == 0 {
        let cs = Seq::<Hfs>::empty();
        assert forall|x: Hfs| cs.contains(x) implies false by {
            let k = choose|k: int| 0 <= k < 0 && cs[k] == x;
        }
        assert(denotes_items(t, cs) && distinct_seq(cs) && (forall|x: Hfs|
            cs.contains(x) ==> !acc.contains(x)) && (forall|x: Hfs| #[trigger]
            (spec_parse_items(t, acc)->Ok_0).contains(x) <==> acc.contains(x) || cs.contains(
                x,
            )));
    } else {
        let e = scan(t, 1, 1)->Close_0;
        let seg = t.subrange(0, e + 1);
        let rest = t.subrange(e + 1, t.len() as int);
        let v0 = spec_parse(seg)->Ok_0;
        lemma_parse_denotes(seg, v0);
        assert(!acc.contains(v0));
        lemma_add_sorted(acc, v0);
        let acc2 = add_sorted(acc, v0);
        assert forall|x: Hfs| acc2.contains(x) implies wf(x) by {
            assert(acc.contains(x) || x == v0);
        }
        lemma_parse_items_denotes(rest, acc2);
        let csr = choose|cs: Seq<Hfs>|
            {
                &&& denotes_items(rest, cs)
                &&& distinct_seq(cs)
                &&& forall|x: Hfs| cs.contains(x) ==> !acc2.contains(x)
                &&& forall|x: Hfs| #[trigger]
                    (spec_parse_items(rest, acc2)->Ok_0).contains(x) <==> acc2.contains(x)
                        || cs.contains(x)
            };
        let cs = csr.insert(0, v0);
        assert(cs.remove(0) =~= csr);
        assert(cs[0] == v0);
        assert forall|k: int| 1 <= k < cs.len() implies cs[k] == csr[k - 1] by {
            assert(cs =~= seq![v0] + csr);
        }
        assert forall|x: Hfs| cs.contains(x) implies (x == v0 || csr.contains(x)) by {
            let k = choose|k: int| 0 <= k < cs.len() && cs[k] == x;
            if k > 0 {
                assert(csr[k - 1] == x);
            }
        }
        assert forall|x: Hfs| (x == v0 || csr.contains(x)) implies cs.contains(x) by {
            if x == v0 {
                assert(cs[0] == x);
            } else {
                let k = choose|k: int| 0 <= k < csr.len() && csr[k] == x;
                assert(cs[k + 1] == x);
            }
        }
        assert(distinct_seq(cs)) by {
            assert(acc2.contains(v0));
            assert forall|i: int, j: int| 0 <= i < j < cs.len() implies cs[i] != cs[j] by {
                if i == 0 {
                    assert(csr.contains(csr[j - 1]));
                } else {
                    assert(csr.contains(csr[i - 1]));
                    assert(csr.contains(csr[j - 1]));
                }
            }
        }
        assert(denotes_items(t, cs)) by {
            assert(0 <= 0 < cs.len() && denotes(t.subrange(0, e + 1), cs[0]) && denotes_items(
                t.subrange(e + 1, t.len() as int),
                cs.remove(0),
            ));
        }
        assert forall|x: Hfs| cs.contains(x) implies !acc.contains(x) by {
            if x == v0 {
            } else {
                assert(csr.contains(x));
                assert(!acc2.contains(x));
                assert(acc2.contains(x) <==> acc.contains(x) || x == v0);
            }
        }
        assert(denotes_items(t, cs) && distinct_seq(cs) && (forall|x: Hfs|
            cs.contains(x) ==> !acc.contains(x)) && (forall|x: Hfs| #[trigger]
            (spec_parse_items(t, acc)->Ok_0).contains(x) <==> acc.contains(x) || cs.contains(
                x,
            )));
    }
}

/// Parsing succeeds with a given set exactly on the texts that denote
/// it: `spec_parse` is characterized by the grammar alone.
pub proof fn lemma_parse_denotes_iff(s: Seq<char>, v: Hfs)
    ensures
        spec_parse(s) == Ok::<Hfs, SetVerParseError>(v) <==> denotes(s, v),
{
    if spec_parse(s) == Ok::<Hfs, SetVerParseError>(v) {
        lemma_parse_denotes(s, v);
    }
    if denotes(s, v) {
        lemma_denotes_parse(s, v);
    }
}

/// Round-trip fixed point: the canonical text of any well-formed set
/// parses back to exactly that set, so serializing the parse result
/// of a canonical text gives the text again.
pub proof fn lemma_format_parse_round_trip(v: Hfs)
    requires
        wf(v),
    ensures
        spec_parse(text_of(v)) == Ok::<Hfs, SetVerParseError>(v),
{
    lemma_text_of_denotes(v);
    lemma_denotes_parse(text_of(v), v);
}

/// Formatting a parsed value canonicalizes: for any valid text, the
/// canonical text of its parse denotes the same mathematical set as
/// the text itself.
pub proof fn lemma_format_canonicalizes(s: Seq<char>, v: Hfs)
    requires
        spec_parse(s) == Ok::<Hfs, SetVerParseError>(v),
    ensures
        denotes(s, v),
        denotes(text_of(v), v),
{
    lemma_parse_denotes(s, v);
    lemma_text_of_denotes(v);
}

/// Each distinct mathematical set has a single textual form: two
/// well-formed values with the same canonical text are the same set.
pub proof fn lemma_text_of_injective(v1: Hfs, v2: Hfs)
    requires
        wf(v1),
        wf(v2),
        text_of(v1) == text_of(v2),
    ensures
        v1 == v2,
{
    lemma_format_parse_round_trip(v1);
    lemma_format_parse_round_trip(v2);
}

/// Canonicalization is order-independent and deterministic: two texts
/// that denote the same mathematical set, whatever order their child
/// segments come in, parse to equal values, and therefore to the same
/// canonical serialization.
pub proof fn lemma_parse_canonicalizes(s1: Seq<char>, s2: Seq<char>, v: Hfs)
    requires
        denotes(s1, v),
        denotes(s2, v),
    ensures
        spec_parse(s1) == Ok::<Hfs, SetVerParseError>(v),
        spec_parse(s2) == Ok::<Hfs, SetVerParseError>(v),
        spec_parse(s1) == spec_parse(s2),
{
    lemma_denotes_parse(s1, v);
    lemma_denotes_parse(s2, v);
}

} // verus!
