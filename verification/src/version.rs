use vstd::prelude::*;

verus! {

/// The mathematical model of a version: a hereditarily finite set,
/// kept in canonical form (children strictly ascending in the
/// canonical order, hence pairwise distinct).
#[verifier::ext_equal]
pub ghost struct Hfs {
    pub cs: Seq<Hfs>,
}

/// The canonical total order on hereditarily finite sets: two sets are
/// compared by their (already canonically sorted) child sequences,
/// lexicographically; a strict prefix orders first.  In particular the
/// empty set orders before every non-empty set.
pub open spec fn lt(a: Hfs, b: Hfs) -> bool
    decreases a, b,
{
    lt_seq(a.cs, b.cs)
}

/// Lexicographic order on sequences of sets: element by element by
/// `lt`, with a strict prefix ordering before the longer sequence.
pub open spec fn lt_seq(s1: Seq<Hfs>, s2: Seq<Hfs>) -> bool
    decreases s1, s2,
{
    if s2.len() == 0 {
        false
    } else if s1.len() == 0 {
        true
    } else if lt(s1[0], s2[0]) {
        true
    } else if s1[0] == s2[0] {
        lt_seq(s1.subrange(1, s1.len() as int), s2.subrange(1, s2.len() as int))
    } else {
        false
    }
}

/// Children strictly ascending in the canonical order (hence pairwise
/// distinct).
pub open spec fn sorted_strict(cs: Seq<Hfs>) -> bool {
    forall|i: int, j: int| 0 <= i < j < cs.len() ==> lt(#[trigger] cs[i], #[trigger] cs[j])
}

/// Canonical well-formedness: at every level the children are strictly
/// sorted by the canonical order.
pub open spec fn wf(v: Hfs) -> bool
    decreases v,
{
    sorted_strict(v.cs) && (forall|i: int| 0 <= i < v.cs.len() ==> wf(#[trigger] v.cs[i]))
}

/// `a` is a subset of `b`: every child of `a` is a child of `b`.
/// Reflexive; on canonical values mutual subsets are equal sets.
pub open spec fn subset_of(a: Hfs, b: Hfs) -> bool {
    forall|i: int| 0 <= i < a.cs.len() ==> b.cs.contains(#[trigger] a.cs[i])
}

/// The canonical order is irreflexive.
pub proof fn lemma_lt_irrefl(a: Hfs)
    ensures
        !lt(a, a),
    decreases a,
{
    lemma_lt_seq_irrefl(a.cs);
}

proof fn lemma_lt_seq_irrefl(s: Seq<Hfs>)
    ensures
        !lt_seq(s, s),
    decreases s,
{
    if s.len() > 0 {
        lemma_lt_irrefl(s[0]);
        lemma_lt_seq_irrefl(s.subrange(1, s.len() as int));
    }
}

/// The canonical order is total: two sets are ordered one way or the
/// other, or they are equal.
pub proof fn lemma_lt_trichotomy(a: Hfs, b: Hfs)
    ensures
        lt(a, b) || lt(b, a) || a == b,
    decreases a, b,
{
    lemma_lt_seq_trichotomy(a.cs, b.cs);
    if a.cs == b.cs {
        assert(a =~= b);
    }
}

proof fn lemma_lt_seq_trichotomy(s1: Seq<Hfs>, s2: Seq<Hfs>)
    ensures
        lt_seq(s1, s2) || lt_seq(s2, s1) || s1 == s2,
    decreases s1, s2,
{
    if s1.len() == 0 && s2.len() == 0 {
        assert(s1 =~= s2);
    } else if s1.len() > 0 && s2.len() > 0 {
        lemma_lt_trichotomy(s1[0], s2[0]);
        if !lt(s1[0], s2[0]) && !lt(s2[0], s1[0]) {
            let t1 = s1.subrange(1, s1.len() as int);
            let t2 = s2.subrange(1, s2.len() as int);
            lemma_lt_seq_trichotomy(t1, t2);
            if t1 == t2 {
                assert(t1.len() == s1.len() - 1);
                assert(t2.len() == s2.len() - 1);
                assert(t1.len() == t2.len());
                assert(s1.len() == s2.len());
                assert forall|i: int| 0 <= i < s1.len() implies s1[i] == s2[i] by {
                    if i > 0 {
                        assert(s1[i] == t1[i - 1]);
                        assert(s2[i] == t2[i - 1]);
                    }
                }
                assert(s1 =~= s2);
            }
        }
    }
}

/// The canonical order is transitive.
pub proof fn lemma_lt_trans(a: Hfs, b: Hfs, c: Hfs)
    requires
        lt(a, b),
        lt(b, c),
    ensures
        lt(a, c),
    decreases a, b, c,
{
    lemma_lt_seq_trans(a.cs, b.cs, c.cs);
}

proof fn lemma_lt_seq_trans(s1: Seq<Hfs>, s2: Seq<Hfs>, s3: Seq<Hfs>)
    requires
        lt_seq(s1, s2),
        lt_seq(s2, s3),
    ensures
        lt_seq(s1, s3),
    decreases s1, s2, s3,
{
    if s1.len() > 0 {
        if lt(s1[0], s2[0]) {
            if lt(s2[0], s3[0]) {
                lemma_lt_trans(s1[0], s2[0], s3[0]);
            }
        } else {
            if !lt(s2[0], s3[0]) {
                lemma_lt_seq_trans(
                    s1.subrange(1, s1.len() as int),
                    s2.subrange(1, s2.len() as int),
                    s3.subrange(1, s3.len() as int),
                );
            }
        }
    }
}

/// The canonical order is asymmetric.
pub proof fn lemma_lt_asym(a: Hfs, b: Hfs)
    requires
        lt(a, b),
    ensures
        !lt(b, a),
{
    if lt(b, a) {
        lemma_lt_trans(a, b, a);
        lemma_lt_irrefl(a);
    }
}

/// Two strictly sorted sequences with the same members are equal: the
/// canonical child order makes the representation of a set unique.
pub proof fn lemma_sorted_unique(s1: Seq<Hfs>, s2: Seq<Hfs>)
    requires
        sorted_strict(s1),
        sorted_strict(s2),
        forall|x: Hfs| s1.contains(x) <==> s2.contains(x),
    ensures
        s1 == s2,
    decreases s1.len(),
{
    if s1.len() == 0 {
        if s2.len() > 0 {
            assert(s2.contains(s2[0]));
        }
        assert(s1 =~= s2);
    } else {
        assert(s1.contains(s1[0]));
        assert(s2.contains(s2[0]));
        let j = choose|j: int| 0 <= j < s2.len() && s2[j] == s1[0];
        let k = choose|k: int| 0 <= k < s1.len() && s1[k] == s2[0];
        if j > 0 {
            // then s2[0] orders before s1[0]; but s2[0] sits in s1 at k,
            // which forces s1[0] to order before or equal it: contradiction.
            assert(lt(s2[0], s1[0]));
            if k > 0 {
                assert(lt(s1[0], s1[k]));
                lemma_lt_asym(s1[0], s2[0]);
                assert(false);
            } else {
                lemma_lt_irrefl(s1[0]);
                assert(false);
            }
        }
        assert(s1[0] == s2[0]);
        let t1 = s1.subrange(1, s1.len() as int);
        let t2 = s2.subrange(1, s2.len() as int);
        assert forall|x: Hfs| t1.contains(x) <==> t2.contains(x) by {
            if t1.contains(x) {
                lemma_tail_contains(s1, s2, x);
            }
            if t2.contains(x) {
                lemma_tail_contains(s2, s1, x);
            }
        }
        lemma_sorted_unique(t1, t2);
        assert(s1.len() == s2.len());
        assert forall|i: int| 0 <= i < s1.len() implies s1[i] == s2[i] by {
            if i > 0 {
                assert(s1[i] == t1[i - 1]);
                assert(s2[i] == t2[i - 1]);
            }
        }
        assert(s1 =~= s2);
    }
}

/// A member of the tail of one sorted sequence that is a member of a
/// second sequence with the same head sits in that sequence's tail.
proof fn lemma_tail_contains(s1: Seq<Hfs>, s2: Seq<Hfs>, x: Hfs)
    requires
        sorted_strict(s1),
        sorted_strict(s2),
        s1.len() > 0,
        s2.len() > 0,
        s1[0] == s2[0],
        forall|y: Hfs| s1.contains(y) <==> s2.contains(y),
        s1.subrange(1, s1.len() as int).contains(x),
    ensures
        s2.subrange(1, s2.len() as int).contains(x),
{
    let t1 = s1.subrange(1, s1.len() as int);
    let i = choose|i: int| 0 <= i < t1.len() && t1[i] == x;
    assert(s1[i + 1] == x);
    assert(s1.contains(x));
    assert(s2.contains(x));
    let j = choose|j: int| 0 <= j < s2.len() && s2[j] == x;
    if j == 0 {
        assert(lt(s1[0], s1[i + 1]));
        lemma_lt_irrefl(x);
        assert(false);
    }
    let t2 = s2.subrange(1, s2.len() as int);
    assert(t2[j - 1] == x);
    assert(t2.contains(x));
}

/// In a strictly sorted sequence no member repeats.
pub proof fn lemma_sorted_distinct(s: Seq<Hfs>, i: int, j: int)
    requires
        sorted_strict(s),
        0 <= i < j < s.len(),
    ensures
        s[i] != s[j],
{
    lemma_lt_irrefl(s[i]);
}

/// A SetVer version: a finite set whose members are themselves such
/// sets, terminating at the empty set.  The children are held strictly
/// ascending in the canonical order, so two values denote the same
/// mathematical set exactly when their models (`@`) are equal.
#[derive(Debug)]
pub struct SetVersion {
    pub(crate) children: Vec<SetVersion>,
}

/// The hereditarily finite set that a `SetVersion` stands for.
pub open(crate) spec fn model(v: SetVersion) -> Hfs
    decreases v,
{
    Hfs {
        cs: Seq::new(
            v.children@.len(),
            |i: int|
                if 0 <= i < v.children@.len() {
                    model(v.children@[i])
                } else {
                    Hfs { cs: Seq::empty() }
                },
        ),
    }
}

impl View for SetVersion {
    type V = Hfs;

    open spec fn view(&self) -> Hfs {
        model(*self)
    }
}

/// The outcome of comparing two versions in the canonical order.
#[derive(Clone, Copy, PartialEq, Eq, Structural, Debug)]
pub enum SetOrder {
    Less,
    Equal,
    Greater,
}

/// If the first `i` members of two sequences agree, their order is
/// decided by the remainders.
proof fn lemma_lt_seq_skip(s1: Seq<Hfs>, s2: Seq<Hfs>, i: int)
    requires
        0 <= i <= s1.len(),
        i <= s2.len(),
        forall|k: int| 0 <= k < i ==> s1[k] == s2[k],
    ensures
        lt_seq(s1, s2) == lt_seq(
            s1.subrange(i, s1.len() as int),
            s2.subrange(i, s2.len() as int),
        ),
    decreases i,
{
    if i == 0 {
        assert(s1.subrange(0, s1.len() as int) =~= s1);
        assert(s2.subrange(0, s2.len() as int) =~= s2);
    } else {
        lemma_lt_irrefl(s1[0]);
        let t1 = s1.subrange(1, s1.len() as int);
        let t2 = s2.subrange(1, s2.len() as int);
        lemma_lt_seq_skip(t1, t2, i - 1);
        assert(t1.subrange(i - 1, t1.len() as int) =~= s1.subrange(i, s1.len() as int));
        assert(t2.subrange(i - 1, t2.len() as int) =~= s2.subrange(i, s2.len() as int));
    }
}

impl SetVersion {
    /// The empty set: the unique value with no members.
    pub fn new() -> (r: SetVersion)
        ensures
            r@.cs.len() == 0,
            wf(r@),
    {
        SetVersion { children: Vec::new() }
    }

    /// Compares two versions in the canonical total order: child
    /// sequences are compared lexicographically, a strict prefix first,
    /// so structurally simpler sets order lower.
    pub fn cmp_canonical(&self, other: &SetVersion) -> (r: SetOrder)
        ensures
            (r == SetOrder::Less) == lt(self@, other@),
            (r == SetOrder::Greater) == lt(other@, self@),
            (r == SetOrder::Equal) == (self@ == other@),
        decreases *self,
    {
        let ghost s1 = self@.cs;
        let ghost s2 = other@.cs;
        let n1 = self.children.len();
        let n2 = other.children.len();
        let min = if n1 < n2 {
            n1
        } else {
            n2
        };
        let mut i: usize = 0;
        while i < min
            invariant
                i <= min,
                min <= n1,
                min <= n2,
                n1 == s1.len(),
                n2 == s2.len(),
                s1 == self@.cs,
                s2 == other@.cs,
                n1 == self.children@.len(),
                n2 == other.children@.len(),
                forall|k: int| 0 <= k < i ==> s1[k] == s2[k],
            decreases min - i,
        {
            let c = self.children[i].cmp_canonical(&other.children[i]);
            proof {
                lemma_lt_seq_skip(s1, s2, i as int);
                lemma_lt_seq_skip(s2, s1, i as int);
            }
            if c == SetOrder::Less {
                proof {
                    assert(lt(s1[i as int], s2[i as int]));
                    assert(lt_seq(s1.subrange(i as int, s1.len() as int), s2.subrange(i as int, s2.len() as int)));
                    assert(lt(self@, other@));
                    lemma_lt_asym(self@, other@);
                    lemma_lt_irrefl(self@);
                }
                return SetOrder::Less;
            }
            if c == SetOrder::Greater {
                proof {
                    assert(lt(s2[i as int], s1[i as int]));
                    assert(lt_seq(s2.subrange(i as int, s2.len() as int), s1.subrange(i as int, s1.len() as int)));
                    assert(lt(other@, self@));
                    lemma_lt_asym(other@, self@);
                    lemma_lt_irrefl(self@);
                }
                return SetOrder::Greater;
            }
            i += 1;
        }
        proof {
            lemma_lt_seq_skip(s1, s2, min as int);
            lemma_lt_seq_skip(s2, s1, min as int);
        }
        if n1 == n2 {
            proof {
                assert(s1 =~= s2);
                assert(self@ =~= other@);
                lemma_lt_irrefl(self@);
            }
            SetOrder::Equal
        } else if n1 < n2 {
            proof {
                assert(lt_seq(s1.subrange(min as int, s1.len() as int), s2.subrange(min as int, s2.len() as int)));
                assert(lt(self@, other@));
                lemma_lt_asym(self@, other@);
                lemma_lt_irrefl(self@);
            }
            SetOrder::Less
        } else {
            proof {
                assert(lt_seq(s2.subrange(min as int, s2.len() as int), s1.subrange(min as int, s1.len() as int)));
                assert(lt(other@, self@));
                lemma_lt_asym(other@, self@);
                lemma_lt_irrefl(self@);
            }
            SetOrder::Greater
        }
    }
}

impl Clone for SetVersion {
    /// An equal, independently owned copy of the version.
    fn clone(&self) -> (r: Self)
        ensures
            r@ == self@,
        decreases *self,
    {
        let n = self.children.len();
        let mut children: Vec<SetVersion> = Vec::new();
        let mut i: usize = 0;
        while i < n
            invariant
                i <= n,
                n == self.children@.len(),
                children@.len() == i,
                forall|k: int| 0 <= k < i ==> model(children@[k]) == model(self.children@[k]),
            decreases n - i,
        {
            children.push(self.children[i].clone());
            i += 1;
        }
        let r = SetVersion { children };
        proof {
            assert(r@.cs =~= self@.cs);
            assert(r@ =~= self@);
        }
        r
    }
}

impl PartialEq for SetVersion {
    /// Structural equality: two versions are equal exactly when they
    /// denote the same mathematical set.
    fn eq(&self, other: &SetVersion) -> (r: bool) {
        self.cmp_canonical(other) == SetOrder::Equal
    }
}

impl vstd::std_specs::cmp::PartialEqSpecImpl for SetVersion {
    open spec fn obeys_eq_spec() -> bool {
        true
    }

    open spec fn eq_spec(&self, other: &SetVersion) -> bool {
        self@ == other@
    }
}

/// The sets that a sequence of versions stands for, in order.
pub open(crate) spec fn models_of(cs: Seq<SetVersion>) -> Seq<Hfs> {
    Seq::new(
        cs.len(),
        |i: int|
            if 0 <= i < cs.len() {
                model(cs[i])
            } else {
                Hfs { cs: Seq::empty() }
            },
    )
}

/// Where a new member lands in a canonically sorted child sequence:
/// every member before position `r.0` orders before `x`, and `r.1`
/// says whether `x` is already a member (then it sits at `r.0`).
pub(crate) fn find_insert(children: &Vec<SetVersion>, x: &SetVersion) -> (r: (usize, bool))
    requires
        sorted_strict(models_of(children@)),
    ensures
        r.1 == models_of(children@).contains(x@),
        r.1 ==> r.0 < children@.len() && models_of(children@)[r.0 as int] == x@,
        !r.1 ==> r.0 <= children@.len() && (forall|k: int|
            0 <= k < r.0 ==> lt(models_of(children@)[k], x@)) && (r.0 < children@.len() ==> lt(
            x@,
            models_of(children@)[r.0 as int],
        )),
{
    let ghost cs = models_of(children@);
    let n = children.len();
    let mut i: usize = 0;
    while i < n
        invariant
            i <= n,
            n == children@.len(),
            cs == models_of(children@),
            sorted_strict(cs),
            forall|k: int| 0 <= k < i ==> lt(cs[k], x@),
        decreases n - i,
    {
        let c = children[i].cmp_canonical(x);
        if c == SetOrder::Equal {
            proof {
                assert(cs[i as int] == x@);
                assert(cs.contains(x@));
            }
            return (i, true);
        }
        if c == SetOrder::Greater {
            proof {
                assert(lt(x@, cs[i as int]));
                assert forall|k: int| 0 <= k < cs.len() implies cs[k] != x@ by {
                    lemma_lt_irrefl(x@);
                    if k > i {
                        lemma_lt_trans(x@, cs[i as int], cs[k]);
                    }
                }
                assert(!cs.contains(x@));
            }
            return (i, false);
        }
        i += 1;
    }
    proof {
        assert forall|k: int| 0 <= k < cs.len() implies cs[k] != x@ by {
            lemma_lt_irrefl(x@);
        }
        assert(!cs.contains(x@));
    }
    (n, false)
}

/// A new member placed at its canonical position: below everything it
/// orders before, dropped if already present.
pub open spec fn add_sorted(cs: Seq<Hfs>, v: Hfs) -> Seq<Hfs>
    decreases cs.len(),
{
    if cs.len() == 0 {
        seq![v]
    } else if lt(v, cs[0]) {
        seq![v] + cs
    } else if v == cs[0] {
        cs
    } else {
        seq![cs[0]] + add_sorted(cs.subrange(1, cs.len() as int), v)
    }
}

/// `add_sorted` keeps the sequence strictly sorted and adds exactly
/// the one member.
pub proof fn lemma_add_sorted(cs: Seq<Hfs>, v: Hfs)
    requires
        sorted_strict(cs),
    ensures
        sorted_strict(add_sorted(cs, v)),
        forall|x: Hfs| add_sorted(cs, v).contains(x) <==> cs.contains(x) || x == v,
        add_sorted(cs, v).contains(v),
    decreases cs.len(),
{
    let r = add_sorted(cs, v);
    if cs.len() == 0 {
        assert(r[0] == v);
        assert(r.contains(v));
        assert forall|x: Hfs| r.contains(x) <==> cs.contains(x) || x == v by {
            if x == v {
                assert(r[0] == v);
                assert(r.contains(x));
            }
        }
    } else if lt(v, cs[0]) {
        assert(r[0] == v);
        assert(r.contains(v));
        assert forall|i: int, j: int| 0 <= i < j < r.len() implies lt(r[i], r[j]) by {
            if i == 0 {
                if j > 1 {
                    lemma_lt_trans(v, cs[0], cs[j - 1]);
                }
            }
        }
        assert forall|x: Hfs| r.contains(x) <==> cs.contains(x) || x == v by {
            if r.contains(x) {
                let i = choose|i: int| 0 <= i < r.len() && r[i] == x;
                if i > 0 {
                    assert(cs[i - 1] == x);
                    assert(cs.contains(x));
                }
            }
            if cs.contains(x) {
                let i = choose|i: int| 0 <= i < cs.len() && cs[i] == x;
                assert(r[i + 1] == x);
                assert(r.contains(x));
            }
            if x == v {
                assert(r[0] == x);
                assert(r.contains(x));
            }
        }
    } else if v == cs[0] {
        assert(r[0] == v);
        assert(r.contains(v));
        assert forall|x: Hfs| r.contains(x) <==> cs.contains(x) || x == v by {
            if x == v {
                assert(cs[0] == x);
                assert(cs.contains(x));
            }
        }
    } else {
        lemma_lt_trichotomy(v, cs[0]);
        assert(lt(cs[0], v));
        let t = cs.subrange(1, cs.len() as int);
        lemma_add_sorted(t, v);
        let rt = add_sorted(t, v);
        assert(r == seq![cs[0]] + rt);
        let mv = choose|mv: int| 0 <= mv < rt.len() && rt[mv] == v;
        assert(r[mv + 1] == v);
        assert(r.contains(v));
        assert forall|i: int, j: int| 0 <= i < j < r.len() implies lt(r[i], r[j]) by {
            if i == 0 {
                assert(rt.contains(rt[j - 1]));
                let x = rt[j - 1];
                if t.contains(x) {
                    let m = choose|m: int| 0 <= m < t.len() && t[m] == x;
                    assert(cs[m + 1] == x);
                    assert(lt(cs[0], x));
                } else {
                    assert(x == v);
                }
                assert(lt(r[0], r[j]));
            } else {
                assert(r[i] == rt[i - 1]);
                assert(r[j] == rt[j - 1]);
            }
        }
        assert forall|x: Hfs| r.contains(x) <==> cs.contains(x) || x == v by {
            if r.contains(x) {
                let i = choose|i: int| 0 <= i < r.len() && r[i] == x;
                if i == 0 {
                    assert(cs[0] == x);
                    assert(cs.contains(x));
                } else {
                    assert(rt[i - 1] == x);
                    assert(rt.contains(x));
                    if t.contains(x) {
                        let m = choose|m: int| 0 <= m < t.len() && t[m] == x;
                        assert(cs[m + 1] == x);
                        assert(cs.contains(x));
                    }
                }
            }
            if cs.contains(x) {
                let i = choose|i: int| 0 <= i < cs.len() && cs[i] == x;
                if i == 0 {
                    assert(r[0] == x);
                } else {
                    assert(t[i - 1] == x);
                    assert(t.contains(x));
                    assert(rt.contains(x));
                    let m = choose|m: int| 0 <= m < rt.len() && rt[m] == x;
                    assert(r[m + 1] == x);
                }
                assert(r.contains(x));
            }
            if x == v {
                assert(r.contains(v));
            }
        }
    }
}

/// Placing a member at the position `find_insert` reports is exactly
/// `add_sorted`.
pub proof fn lemma_add_sorted_insert(cs: Seq<Hfs>, v: Hfs, pos: int)
    requires
        sorted_strict(cs),
        0 <= pos <= cs.len(),
        forall|k: int| 0 <= k < pos ==> lt(cs[k], v),
        pos < cs.len() ==> lt(v, cs[pos]),
    ensures
        add_sorted(cs, v) == cs.insert(pos, v),
    decreases cs.len(),
{
    if cs.len() == 0 {
        assert(add_sorted(cs, v) =~= cs.insert(0, v));
    } else if pos == 0 {
        assert(lt(v, cs[0]));
        assert(seq![v] + cs =~= cs.insert(0, v));
    } else {
        assert(lt(cs[0], v));
        lemma_lt_asym(cs[0], v);
        lemma_lt_irrefl(v);
        let t = cs.subrange(1, cs.len() as int);
        lemma_add_sorted_insert(t, v, pos - 1);
        assert(seq![cs[0]] + t.insert(pos - 1, v) =~= cs.insert(pos, v));
    }
}

/// The four-valued SetVer comparison result: a version is older than
/// (a subset of), identical to, newer than (a superset of), or
/// unrelated to another.
#[derive(Clone, Copy, PartialEq, Eq, Structural, Debug)]
pub enum SetVerOrdering {
    Subset,
    Equal,
    Superset,
    Incomparable,
}

/// Whether `x` denotes a member of the given child collection.
fn has_member(children: &Vec<SetVersion>, x: &SetVersion) -> (r: bool)
    ensures
        r == models_of(children@).contains(x@),
{
    let ghost cs = models_of(children@);
    let n = children.len();
    let mut i: usize = 0;
    while i < n
        invariant
            i <= n,
            n == children@.len(),
            cs == models_of(children@),
            forall|k: int| 0 <= k < i ==> cs[k] != x@,
        decreases n - i,
    {
        if children[i].cmp_canonical(x) == SetOrder::Equal {
            proof {
                assert(cs[i as int] == x@);
                assert(cs.contains(x@));
            }
            return true;
        }
        i += 1;
    }
    proof {
        assert(!cs.contains(x@));
    }
    false
}

impl SetVersion {
    /// Whether this version is a subset of the other: every member of
    /// this set is a member of the other.  Reflexive.
    pub fn is_subset(&self, other: &SetVersion) -> (r: bool)
        ensures
            r == subset_of(self@, other@),
    {
        proof {
            assert(self@.cs =~= models_of(self.children@));
            assert(other@.cs =~= models_of(other.children@));
        }
        let n = self.children.len();
        let mut i: usize = 0;
        while i < n
            invariant
                i <= n,
                n == self.children@.len(),
                self@.cs == models_of(self.children@),
                other@.cs == models_of(other.children@),
                forall|k: int| 0 <= k < i ==> other@.cs.contains(#[trigger] self@.cs[k]),
            decreases n - i,
        {
            if !has_member(&other.children, &self.children[i]) {
                proof {
                    assert(self@.cs[i as int] == model(self.children@[i as int]));
                    assert(!other@.cs.contains(self@.cs[i as int]));
                }
                return false;
            }
            i += 1;
        }
        true
    }

    /// Whether this version is a superset of the other: every member
    /// of the other set is a member of this one.  Reflexive.
    pub fn is_superset(&self, other: &SetVersion) -> (r: bool)
        ensures
            r == subset_of(other@, self@),
    {
        other.is_subset(self)
    }

    /// Whether this version is a strict subset of the other, derived
    /// as "not (the other is a subset of this one)".
    pub fn is_strict_subset(&self, other: &SetVersion) -> (r: bool)
        ensures
            r == !subset_of(other@, self@),
    {
        !other.is_subset(self)
    }

    /// Whether this version is a strict superset of the other, derived
    /// as "not (the other is a superset of this one)".
    pub fn is_strict_superset(&self, other: &SetVersion) -> (r: bool)
        ensures
            r == !subset_of(self@, other@),
    {
        !other.is_superset(self)
    }

    /// The SetVer comparison: subset means older, superset means
    /// newer, and sets that are neither are unrelated.  The subset test
    /// comes first and is reflexive, so equal versions are reported as
    /// `Subset`; the `Equal` outcome is kept because the four-valued
    /// convention names it, but this evaluation order never reaches it.
    pub fn setver_compare(&self, other: &SetVersion) -> (r: SetVerOrdering)
        ensures
            r == (if subset_of(self@, other@) {
                SetVerOrdering::Subset
            } else if self@ == other@ {
                SetVerOrdering::Equal
            } else if subset_of(other@, self@) {
                SetVerOrdering::Superset
            } else {
                SetVerOrdering::Incomparable
            }),
    {
        if self.is_subset(other) {
            SetVerOrdering::Subset
        } else if self.cmp_canonical(other) == SetOrder::Equal {
            SetVerOrdering::Equal
        } else if other.is_subset(self) {
            SetVerOrdering::Superset
        } else {
            SetVerOrdering::Incomparable
        }
    }

    /// Adds the given version as a member of this set, at its
    /// canonical place; a member already present is not repeated.
    pub fn add_child_version(&mut self, child: SetVersion)
        requires
            wf(old(self)@),
            wf(child@),
        ensures
            wf(final(self)@),
            forall|x: Hfs|
                final(self)@.cs.contains(x) <==> old(self)@.cs.contains(x) || x == child@,
    {
        proof {
            assert(self@.cs =~= models_of(self.children@));
        }
        let ghost oldm = models_of(self.children@);
        let ghost cm = child@;
        let (pos, dup) = find_insert(&self.children, &child);
        if dup {
            proof {
                assert(oldm.contains(cm));
                assert(final(self)@.cs == old(self)@.cs);
            }
        } else {
            self.children.insert(pos, child);
            proof {
                assert(self.children@ == old(self).children@.insert(pos as int, child));
                assert(models_of(self.children@) =~= oldm.insert(pos as int, cm));
                lemma_add_sorted_insert(oldm, cm, pos as int);
                lemma_add_sorted(oldm, cm);
                assert(final(self)@.cs =~= models_of(self.children@));
                assert(final(self)@.cs == add_sorted(oldm, cm));
                assert forall|i: int| 0 <= i < final(self)@.cs.len() implies wf(
                    #[trigger] final(self)@.cs[i],
                ) by {
                    let x = final(self)@.cs[i];
                    assert(final(self)@.cs.contains(x));
                    if oldm.contains(x) {
                        let k = choose|k: int| 0 <= k < oldm.len() && oldm[k] == x;
                        assert(wf(old(self)@.cs[k]));
                    }
                }
            }
        }
    }
}

impl Default for SetVersion {
    /// The default version is the empty set, the terminal value of the
    /// whole scheme.
    fn default() -> (r: SetVersion)
        ensures
            r@.cs.len() == 0,
            wf(r@),
    {
        SetVersion::new()
    }
}

} // verus!
