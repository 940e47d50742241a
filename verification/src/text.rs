use vstd::prelude::*;

verus! {

/// How one text stands to another in the order of their code points.
#[derive(Clone, Copy, Debug, PartialEq, Eq, Structural)]
pub enum Rank {
    Before,
    Same,
    After,
}

/// `a` comes strictly before `b` when both are read code point by code
/// point: at the first place where they differ `a` has the smaller one, or
/// `a` ends there and `b` goes on.
pub open spec fn lex_less(a: Seq<char>, b: Seq<char>) -> bool
    decreases a.len(),
{
    if b.len() == 0 {
        false
    } else if a.len() == 0 {
        true
    } else if a[0] != b[0] {
        a[0] < b[0]
    } else {
        lex_less(a.drop_first(), b.drop_first())
    }
}

/// Each text of `texts` comes strictly before every later one.
pub open spec fn ascending(texts: Seq<Seq<char>>) -> bool {
    forall|i: int, j: int| 0 <= i < j < texts.len() ==> lex_less(texts[i], texts[j])
}

/// The views of a sequence of string slices, in the same order.
pub open spec fn str_views(v: Seq<&str>) -> Seq<Seq<char>> {
    v.map_values(|s: &str| s@)
}

/// No text comes before itself.
pub proof fn lemma_lex_irreflexive(a: Seq<char>)
    ensures
        !lex_less(a, a),
    decreases a.len(),
{
    if a.len() > 0 {
        lemma_lex_irreflexive(a.drop_first());
    }
}

/// Of two different texts exactly one comes before the other.
pub proof fn lemma_lex_total(a: Seq<char>, b: Seq<char>)
    ensures
        a == b || lex_less(a, b) || lex_less(b, a),
        !(lex_less(a, b) && lex_less(b, a)),
    decreases a.len(),
{
    if a.len() == 0 || b.len() == 0 {
        if a.len() == 0 && b.len() == 0 {
            assert(a =~= b);
        }
    } else if a[0] == b[0] {
        lemma_lex_total(a.drop_first(), b.drop_first());
        if a.drop_first() == b.drop_first() {
            assert(a =~= seq![a[0]] + a.drop_first());
            assert(b =~= seq![b[0]] + b.drop_first());
        }
    }
}

/// The order is transitive.
pub proof fn lemma_lex_transitive(a: Seq<char>, b: Seq<char>, c: Seq<char>)
    requires
        lex_less(a, b),
        lex_less(b, c),
    ensures
        lex_less(a, c),
    decreases a.len(),
{
    if a.len() > 0 && a[0] == b[0] && b[0] == c[0] {
        lemma_lex_transitive(a.drop_first(), b.drop_first(), c.drop_first());
    }
}

/// Texts in ascending order hold no text twice.
pub proof fn lemma_ascending_distinct(texts: Seq<Seq<char>>)
    requires
        ascending(texts),
    ensures
        texts.no_duplicates(),
{
    assert forall|i: int, j: int| 0 <= i < texts.len() && 0 <= j < texts.len() && i
        != j implies texts[i] != texts[j] by {
        lemma_lex_irreflexive(texts[i]);
        if i < j {
            assert(lex_less(texts[i], texts[j]));
        } else {
            assert(lex_less(texts[j], texts[i]));
        }
    }
}

/// An ascending sequence is determined by the texts it holds: two of them
/// with the same texts are the same sequence.
pub proof fn lemma_ascending_unique(a: Seq<Seq<char>>, b: Seq<Seq<char>>)
    requires
        ascending(a),
        ascending(b),
        a.to_set() == b.to_set(),
    ensures
        a == b,
    decreases a.len(),
{
    if a.len() == 0 {
        if b.len() > 0 {
            assert(b.contains(b[0]));
            assert(b.to_set().contains(b[0]));
            assert(a.contains(b[0]));
        }
        assert(a =~= b);
    } else {
        assert(a.contains(a.last()));
        assert(a.to_set().contains(a.last()));
        assert(b.contains(a.last()));
        let i = choose|i: int| 0 <= i < b.len() && b[i] == a.last();
        assert(b.contains(b.last()));
        assert(b.to_set().contains(b.last()));
        assert(a.contains(b.last()));
        let j = choose|j: int| 0 <= j < a.len() && a[j] == b.last();
        // Each last text is the greatest of its sequence, so they are one.
        if i < b.len() - 1 {
            assert(lex_less(b[i], b.last()));
            if j < a.len() - 1 {
                assert(lex_less(a[j], a.last()));
                lemma_lex_total(a.last(), b.last());
            }
        }
        assert(a.last() == b.last());
        let x = a.drop_last();
        let y = b.drop_last();
        assert forall|t: Seq<char>| x.to_set().contains(t) == y.to_set().contains(t) by {
            if x.contains(t) {
                let k = choose|k: int| 0 <= k < x.len() && x[k] == t;
                assert(lex_less(a[k], a.last()));
                lemma_lex_irreflexive(t);
                assert(a.contains(t));
                assert(a.to_set().contains(t));
                assert(b.contains(t));
                let m = choose|m: int| 0 <= m < b.len() && b[m] == t;
                assert(y[m] == t);
            }
            if y.contains(t) {
                let k = choose|k: int| 0 <= k < y.len() && y[k] == t;
                assert(lex_less(b[k], b.last()));
                lemma_lex_irreflexive(t);
                assert(b.contains(t));
                assert(b.to_set().contains(t));
                assert(a.contains(t));
                let m = choose|m: int| 0 <= m < a.len() && a[m] == t;
                assert(x[m] == t);
            }
        }
        assert(x.to_set() =~= y.to_set());
        assert(ascending(x)) by {
            assert forall|p: int, q: int| 0 <= p < q < x.len() implies lex_less(x[p], x[q]) by {
                assert(lex_less(a[p], a[q]));
            }
        }
        assert(ascending(y)) by {
            assert forall|p: int, q: int| 0 <= p < q < y.len() implies lex_less(y[p], y[q]) by {
                assert(lex_less(b[p], b[q]));
            }
        }
        lemma_ascending_unique(x, y);
        assert(a =~= x.push(a.last()));
        assert(b =~= y.push(b.last()));
    }
}

/// The characters of `s`, in order.
pub fn chars_of(s: &str) -> (chars: Vec<char>)
    ensures
        chars@ == s@,
{
    let mut chars: Vec<char> = Vec::new();
    for c in it: s.chars()
        invariant
            chars@ == it.seq().take(it.index() as int),
            it.seq() == s@,
    {
        chars.push(c);
    }
    chars
}

/// Ranks the stretch `[a_from, a_to)` of `chars` against its stretch
/// `[b_from, b_to)`.
pub(crate) fn rank_spans(
    chars: &Vec<char>,
    a_from: usize,
    a_to: usize,
    b_from: usize,
    b_to: usize,
) -> (r: Rank)
    requires
        a_from <= a_to <= chars.len(),
        b_from <= b_to <= chars.len(),
    ensures
        r == Rank::Before <==> lex_less(
            chars@.subrange(a_from as int, a_to as int),
            chars@.subrange(b_from as int, b_to as int),
        ),
        r == Rank::Same <==> chars@.subrange(a_from as int, a_to as int) == chars@.subrange(
            b_from as int,
            b_to as int,
        ),
        r == Rank::After <==> lex_less(
            chars@.subrange(b_from as int, b_to as int),
            chars@.subrange(a_from as int, a_to as int),
        ),
{
    let ghost a = chars@.subrange(a_from as int, a_to as int);
    let ghost b = chars@.subrange(b_from as int, b_to as int);
    let mut i: usize = a_from;
    let mut j: usize = b_from;
    proof {
        assert(a.skip(0) =~= a);
        assert(b.skip(0) =~= b);
    }
    while i < a_to && j < b_to
        invariant
            a_from <= i <= a_to <= chars.len(),
            b_from <= j <= b_to <= chars.len(),
            i - a_from == j - b_from,
            a == chars@.subrange(a_from as int, a_to as int),
            b == chars@.subrange(b_from as int, b_to as int),
            lex_less(a, b) == lex_less(a.skip(i - a_from), b.skip(j - b_from)),
            lex_less(b, a) == lex_less(b.skip(j - b_from), a.skip(i - a_from)),
            (a == b) == (a.skip(i - a_from) == b.skip(j - b_from)),
        decreases a_to - i,
    {
        let x = chars[i];
        let y = chars[j];
        let ghost ra = a.skip(i - a_from);
        let ghost rb = b.skip(j - b_from);
        proof {
            assert(ra[0] == x);
            assert(rb[0] == y);
            assert(ra.drop_first() =~= a.skip(i + 1 - a_from));
            assert(rb.drop_first() =~= b.skip(j + 1 - b_from));
        }
        if x < y {
            return Rank::Before;
        }
        if y < x {
            return Rank::After;
        }
        proof {
            assert(x == y);
            if ra.drop_first() == rb.drop_first() {
                assert(ra =~= seq![x] + ra.drop_first());
                assert(rb =~= seq![y] + rb.drop_first());
            }
        }
        i += 1;
        j += 1;
    }
    let ghost ra = a.skip(i - a_from);
    let ghost rb = b.skip(j - b_from);
    if i < a_to {
        assert(rb.len() == 0 && ra.len() > 0);
        Rank::After
    } else if j < b_to {
        assert(ra.len() == 0 && rb.len() > 0);
        Rank::Before
    } else {
        assert(ra =~= rb);
        proof {
            lemma_lex_irreflexive(ra);
        }
        Rank::Same
    }
}

} // verus!
