use crate::error::Error;
use crate::text::{chars_of, str_views};
use crate::tokenizer::{Filter, FilterView, Tokenizer};
use vstd::prelude::*;

verus! {

/// The pieces that `sep` cuts `s` into, in order. A text without `sep` is
/// one piece; `n` separators give `n + 1` pieces, empty ones included.
pub open spec fn split(s: Seq<char>, sep: char) -> Seq<Seq<char>>
    decreases s.len(),
{
    if s.len() == 0 {
        seq![Seq::<char>::empty()]
    } else {
        let before = split(s.drop_last(), sep);
        if s.last() == sep {
            before.push(Seq::<char>::empty())
        } else {
            before.update(before.len() - 1, before.last().push(s.last()))
        }
    }
}

/// The pieces written one after another with `sep` between them.
pub open spec fn join(pieces: Seq<Seq<char>>, sep: char) -> Seq<char>
    decreases pieces.len(),
{
    if pieces.len() == 0 {
        Seq::<char>::empty()
    } else if pieces.len() == 1 {
        pieces[0]
    } else {
        join(pieces.drop_last(), sep).push(sep) + pieces.last()
    }
}

/// The filter that the simple grammar reads in `q`: the terms between
/// commas are AND tags, except that a last term with a `|` in it is cut at
/// each `|` into the OR tags. The empty text stands for the empty filter.
pub open spec fn simple_filter(q: Seq<char>) -> FilterView {
    if q.len() == 0 {
        FilterView { ands: Seq::empty(), ors: Seq::empty() }
    } else {
        let terms = split(q, ',');
        if terms.last().contains('|') {
            FilterView { ands: terms.drop_last(), ors: split(terms.last(), '|') }
        } else {
            FilterView { ands: terms, ors: Seq::empty() }
        }
    }
}

/// Cutting never yields nothing, no piece holds the separator, and the
/// pieces joined by the separator are the text again.
pub proof fn lemma_split_join(s: Seq<char>, sep: char)
    ensures
        split(s, sep).len() >= 1,
        forall|k: int|
            0 <= k < split(s, sep).len() ==> !(#[trigger] split(s, sep)[k]).contains(sep),
        join(split(s, sep), sep) == s,
    decreases s.len(),
{
    let pieces = split(s, sep);
    if s.len() == 0 {
        assert(pieces[0] =~= Seq::<char>::empty());
        assert(join(pieces, sep) =~= s);
    } else {
        let before = split(s.drop_last(), sep);
        lemma_split_join(s.drop_last(), sep);
        if s.last() == sep {
            assert(pieces.drop_last() =~= before);
            assert(join(pieces, sep) =~= s.drop_last().push(sep));
            assert(s.drop_last().push(sep) =~= s);
        } else {
            let grown = before.last().push(s.last());
            assert forall|k: int| 0 <= k < pieces.len() implies !(#[trigger] pieces[k]).contains(
                sep,
            ) by {
                if k == pieces.len() - 1 {
                    if grown.contains(sep) {
                        let i = choose|i: int| 0 <= i < grown.len() && grown[i] == sep;
                        assert(before.last()[i] == sep);
                    }
                } else {
                    assert(pieces[k] == before[k]);
                }
            }
            if before.len() == 1 {
                assert(join(before, sep) == before[0]);
                assert(join(pieces, sep) =~= s);
            } else {
                assert(pieces.drop_last() =~= before.drop_last());
                assert(join(pieces, sep) =~= join(before, sep).push(s.last()));
                assert(join(pieces, sep) =~= s);
            }
        }
    }
}

/// Bars cut the last term only: every term before the last one is an AND
/// tag as it stands, and the last term is one too unless it holds a bar.
pub proof fn law_bars_cut_last_term_only(q: Seq<char>)
    requires
        q.len() > 0,
    ensures
        forall|k: int|
            0 <= k < split(q, ',').len() - 1 ==> simple_filter(q).ands[k] == #[trigger] split(
                q,
                ',',
            )[k],
        simple_filter(q).ands.len() + (if simple_filter(q).ors.len() > 0 {
            1int
        } else {
            0int
        }) == split(q, ',').len(),
        simple_filter(q).ors.len() > 0 <==> split(q, ',').last().contains('|'),
        simple_filter(q).ors.len() > 0 ==> join(simple_filter(q).ors, '|') == split(q, ',').last(),
{
    lemma_split_join(q, ',');
    lemma_split_join(split(q, ',').last(), '|');
}

/// Cuts the stretch `[from, to)` of `q`, whose characters are `chars`, at
/// each `sep`. Also gives the place where the last piece begins.
fn split_stretch<'a>(q: &'a str, chars: &Vec<char>, from: usize, to: usize, sep: char) -> (r: (
    Vec<&'a str>,
    usize,
))
    requires
        chars@ == q@,
        from <= to <= chars.len(),
    ensures
        str_views(r.0@) == split(chars@.subrange(from as int, to as int), sep),
        from <= r.1 <= to,
        r.0.len() >= 1,
        r.0@.last()@ == chars@.subrange(r.1 as int, to as int),
{
    let ghost whole = chars@.subrange(from as int, to as int);
    let mut pieces: Vec<&'a str> = Vec::new();
    let mut start: usize = from;
    let mut i: usize = from;
    proof {
        assert(whole.take(0) =~= Seq::<char>::empty());
        assert(chars@.subrange(start as int, i as int) =~= Seq::<char>::empty());
        assert(str_views(pieces@).push(chars@.subrange(start as int, i as int)) =~= split(
            whole.take(0),
            sep,
        ));
    }
    while i < to
        invariant
            chars@ == q@,
            from <= start <= i <= to <= chars.len(),
            whole == chars@.subrange(from as int, to as int),
            str_views(pieces@).push(chars@.subrange(start as int, i as int)) == split(
                whole.take(i - from),
                sep,
            ),
        decreases to - i,
    {
        let ghost done = str_views(pieces@);
        let ghost open = chars@.subrange(start as int, i as int);
        proof {
            let prefix = whole.take(i + 1 - from);
            assert(prefix.drop_last() =~= whole.take(i - from));
            assert(prefix.last() == chars@[i as int]);
        }
        if chars[i] == sep {
            pieces.push(q.substring_char(start, i));
            start = i + 1;
            proof {
                assert(str_views(pieces@) =~= done.push(open));
                assert(chars@.subrange(start as int, i + 1) =~= Seq::<char>::empty());
            }
        } else {
            proof {
                assert(chars@.subrange(start as int, i + 1) =~= open.push(chars@[i as int]));
                assert(done.push(open).update(done.len() as int, open.push(chars@[i as int]))
                    =~= done.push(open.push(chars@[i as int])));
            }
        }
        i += 1;
    }
    let ghost done = str_views(pieces@);
    pieces.push(q.substring_char(start, to));
    proof {
        assert(whole.take(to - from) =~= whole);
        assert(str_views(pieces@) =~= done.push(chars@.subrange(start as int, to as int)));
    }
    (pieces, start)
}

/// Whether `c` occurs in the stretch `[from, to)` of `chars`.
fn stretch_contains(chars: &Vec<char>, from: usize, to: usize, c: char) -> (r: bool)
    requires
        from <= to <= chars.len(),
    ensures
        r == chars@.subrange(from as int, to as int).contains(c),
{
    let ghost stretch = chars@.subrange(from as int, to as int);
    let mut i: usize = from;
    while i < to
        invariant
            from <= i <= to <= chars.len(),
            stretch == chars@.subrange(from as int, to as int),
            forall|k: int| 0 <= k < i - from ==> stretch[k] != c,
        decreases to - i,
    {
        if chars[i] == c {
            assert(stretch[i - from] == c);
            return true;
        }
        i += 1;
    }
    false
}

/// The grammar `a,b,c|d|e`: AND tags between commas, and OR tags between
/// bars in the last term.
#[derive(Debug)]
pub struct SimpleTokenizer {}

impl SimpleTokenizer {
    pub fn new() -> (t: SimpleTokenizer)
        ensures
            forall|q: Seq<char>| #[trigger] t.parse(q) == Some(simple_filter(q)),
    {
        SimpleTokenizer {  }
    }
}

impl Tokenizer for SimpleTokenizer {
    open spec fn parse(&self, q: Seq<char>) -> Option<FilterView> {
        Some(simple_filter(q))
    }

    fn tokenize<'a>(&self, q: &'a str) -> (r: Result<Filter<'a>, Error>)
        ensures
            r is Ok,
            r->Ok_0@ == simple_filter(q@),
    {
        let chars = chars_of(q);
        let n = chars.len();
        if n == 0 {
            let empty = Filter { ands: Vec::new(), ors: Vec::new() };
            assert(empty@.ands =~= Seq::empty());
            assert(empty@.ors =~= Seq::empty());
            return Ok(empty);
        }
        assert(chars@.subrange(0, n as int) =~= q@);
        let (mut ands, last_from) = split_stretch(q, &chars, 0, n, ',');
        let ghost terms = str_views(ands@);
        assert(terms.last() == chars@.subrange(last_from as int, n as int));
        let mut ors: Vec<&'a str> = Vec::new();
        if stretch_contains(&chars, last_from, n, '|') {
            let (cut, _) = split_stretch(q, &chars, last_from, n, '|');
            ors = cut;
            ands.pop();
            assert(str_views(ands@) =~= terms.drop_last());
        } else {
            assert(str_views(ors@) =~= Seq::empty());
        }
        let filter = Filter { ands, ors };
        assert(filter@.ands == simple_filter(q@).ands);
        assert(filter@.ors == simple_filter(q@).ors);
        Ok(filter)
    }
}

} // verus!
