use crate::error::Error;
use crate::text::{ascending, chars_of, lemma_lex_transitive, lex_less, rank_spans, str_views, Rank};
use vstd::prelude::*;

verus! {

/// The characters with the Unicode property White_Space.
pub open spec fn is_whitespace(c: char) -> bool {
    ||| '\t' <= c <= '\r'
    ||| c == ' '
    ||| c == '\u{85}'
    ||| c == '\u{a0}'
    ||| c == '\u{1680}'
    ||| '\u{2000}' <= c <= '\u{200a}'
    ||| c == '\u{2028}'
    ||| c == '\u{2029}'
    ||| c == '\u{202f}'
    ||| c == '\u{205f}'
    ||| c == '\u{3000}'
}

/// The characters a tag is made of: anything but whitespace, `.`, `?`, `#`
/// and `,`.
pub open spec fn is_tag_char(c: char) -> bool {
    !is_whitespace(c) && c != '.' && c != '?' && c != '#' && c != ','
}

/// A tag is written at `i`: a `#` that opens the text or follows
/// whitespace, with a tag character right behind it.
pub open spec fn tag_starts_at(s: Seq<char>, i: int) -> bool {
    &&& 0 <= i
    &&& i + 1 < s.len()
    &&& s[i] == '#'
    &&& (i == 0 || is_whitespace(s[i - 1]))
    &&& is_tag_char(s[i + 1])
}

/// Where the run of tag characters that begins at `from` ends: the first
/// place at or after `from` that holds no tag character, or the end of `s`.
pub open spec fn tag_end(s: Seq<char>, from: int) -> int
    decreases s.len() - from,
{
    if 0 <= from < s.len() && is_tag_char(s[from]) {
        tag_end(s, from + 1)
    } else {
        from
    }
}

/// The tag written at `i`: all tag characters behind the `#`.
pub open spec fn tag_at(s: Seq<char>, i: int) -> Seq<char> {
    s.subrange(i + 1, tag_end(s, i + 1))
}

/// `t` is written as a tag somewhere in `s`.
pub open spec fn is_tag_of(s: Seq<char>, t: Seq<char>) -> bool {
    exists|i: int| tag_starts_at(s, i) && tag_at(s, i) == t
}

/// `s` holds at least one tag.
pub open spec fn has_tags(s: Seq<char>) -> bool {
    exists|i: int| tag_starts_at(s, i)
}

/// All tags written in `s`.
pub open spec fn tag_set(s: Seq<char>) -> Set<Seq<char>> {
    Set::new(|t: Seq<char>| is_tag_of(s, t))
}

/// A run of tag characters ends inside the text, not before its start.
pub proof fn lemma_tag_end_bounds(s: Seq<char>, from: int)
    requires
        0 <= from <= s.len(),
    ensures
        from <= tag_end(s, from) <= s.len(),
    decreases s.len() - from,
{
    if from < s.len() && is_tag_char(s[from]) {
        lemma_tag_end_bounds(s, from + 1);
    }
}

/// Every tag of a text has at least one character, and only tag characters.
pub proof fn lemma_tag_shape(s: Seq<char>, i: int)
    requires
        tag_starts_at(s, i),
    ensures
        tag_at(s, i).len() >= 1,
        forall|k: int| 0 <= k < tag_at(s, i).len() ==> is_tag_char(#[trigger] tag_at(s, i)[k]),
{
    lemma_tag_end_bounds(s, i + 2);
    lemma_run_is_tag_chars(s, i + 1);
}

proof fn lemma_run_is_tag_chars(s: Seq<char>, from: int)
    requires
        0 <= from <= s.len(),
    ensures
        forall|k: int| from <= k < tag_end(s, from) ==> is_tag_char(#[trigger] s[k]),
    decreases s.len() - from,
{
    if from < s.len() && is_tag_char(s[from]) {
        lemma_run_is_tag_chars(s, from + 1);
    }
}

/// Whether `c` is whitespace.
pub fn is_space(c: char) -> (r: bool)
    ensures
        r == is_whitespace(c),
{
    ('\t' <= c && c <= '\r') || c == ' ' || c == '\u{85}' || c == '\u{a0}' || c == '\u{1680}' || (
    '\u{2000}' <= c && c <= '\u{200a}') || c == '\u{2028}' || c == '\u{2029}' || c == '\u{202f}'
        || c == '\u{205f}' || c == '\u{3000}'
}

/// Whether a tag can hold `c`.
pub fn is_tag_character(c: char) -> (r: bool)
    ensures
        r == is_tag_char(c),
{
    !is_space(c) && c != '.' && c != '?' && c != '#' && c != ','
}

/// The texts that the stretches `spans` cut out of `s`.
spec fn span_texts(s: Seq<char>, spans: Seq<(usize, usize)>) -> Seq<Seq<char>> {
    spans.map_values(|p: (usize, usize)| s.subrange(p.0 as int, p.1 as int))
}

spec fn spans_fit(spans: Seq<(usize, usize)>, len: nat) -> bool {
    forall|k: int| 0 <= k < spans.len() ==> (#[trigger] spans[k]).0 <= spans[k].1 <= len
}

proof fn lemma_insert_keeps_ascending(texts: Seq<Seq<char>>, p: int, t: Seq<char>)
    requires
        ascending(texts),
        0 <= p <= texts.len(),
        forall|k: int| 0 <= k < p ==> lex_less(#[trigger] texts[k], t),
        p < texts.len() ==> lex_less(t, texts[p]),
    ensures
        ascending(texts.insert(p, t)),
{
    let out = texts.insert(p, t);
    assert forall|i: int, j: int| 0 <= i < j < out.len() implies lex_less(out[i], out[j]) by {
        if j == p {
            assert(out[i] == texts[i]);
        } else if i == p {
            assert(out[j] == texts[j - 1]);
            if j - 1 > p {
                lemma_lex_transitive(t, texts[p], texts[j - 1]);
            }
        } else if i < p && j > p {
            assert(out[j] == texts[j - 1]);
            assert(lex_less(texts[i], texts[j - 1]));
        } else if i < p {
            assert(out[j] == texts[j]);
        } else {
            assert(out[i] == texts[i - 1]);
            assert(out[j] == texts[j - 1]);
        }
    }
}

/// Puts the stretch `[from, to)` of `chars` into `spans`, which stay in
/// ascending order of their texts, unless its text is there already.
fn insert_span(spans: &mut Vec<(usize, usize)>, chars: &Vec<char>, from: usize, to: usize)
    requires
        from <= to <= chars.len(),
        spans_fit(old(spans)@, chars@.len()),
        ascending(span_texts(chars@, old(spans)@)),
    ensures
        spans_fit(final(spans)@, chars@.len()),
        ascending(span_texts(chars@, final(spans)@)),
        forall|t: Seq<char>|
            span_texts(chars@, final(spans)@).contains(t) <==> (span_texts(
                chars@,
                old(spans)@,
            ).contains(t) || t == chars@.subrange(from as int, to as int)),
{
    let ghost fresh = chars@.subrange(from as int, to as int);
    let ghost before = span_texts(chars@, spans@);
    let mut p: usize = 0;
    let mut searching = true;
    while searching && p < spans.len()
        invariant
            from <= to <= chars.len(),
            fresh == chars@.subrange(from as int, to as int),
            spans@ == old(spans)@,
            before == span_texts(chars@, spans@),
            ascending(before),
            spans_fit(spans@, chars@.len()),
            p <= spans.len(),
            forall|k: int| 0 <= k < p ==> lex_less(#[trigger] before[k], fresh),
            !searching ==> p < spans.len() && lex_less(fresh, before[p as int]),
        decreases spans.len() - p + (if searching { 1int } else { 0int }),
    {
        let here = spans[p];
        assert(before[p as int] == chars@.subrange(here.0 as int, here.1 as int));
        match rank_spans(chars, here.0, here.1, from, to) {
            Rank::Before => {
                p += 1;
            },
            Rank::Same => {
                assert(before.contains(fresh));
                return ;
            },
            Rank::After => {
                searching = false;
            },
        }
    }
    spans.insert(p, (from, to));
    proof {
        let after = span_texts(chars@, spans@);
        assert(after =~= before.insert(p as int, fresh));
        lemma_insert_keeps_ascending(before, p as int, fresh);
        assert forall|t: Seq<char>| after.contains(t) <==> (before.contains(t) || t == fresh) by {
            if after.contains(t) {
                let k = choose|k: int| 0 <= k < after.len() && after[k] == t;
                if k < p {
                    assert(before[k] == t);
                } else if k > p {
                    assert(before[k - 1] == t);
                }
            }
            if before.contains(t) {
                let k = choose|k: int| 0 <= k < before.len() && before[k] == t;
                if k < p {
                    assert(after[k] == t);
                } else {
                    assert(after[k + 1] == t);
                }
            }
            if t == fresh {
                assert(after[p as int] == t);
            }
        }
        assert forall|k: int| 0 <= k < spans@.len() implies (#[trigger] spans@[k]).0 <= spans@[k].1
            <= chars@.len() by {
            if k < p {
                assert(spans@[k] == old(spans)@[k]);
            } else if k > p {
                assert(spans@[k] == old(spans)@[k - 1]);
            }
        }
    }
}

/// The tags written in `note`, each once, in ascending order of their code
/// points.
///
/// A tag is a `#` at the start of the text or behind whitespace, and the
/// run of tag characters that follows it; the tag is that run, without the
/// `#`. A text without any tag is refused with `Error::NoTagsFound`.
pub fn extract_tags(note: &str) -> (r: Result<Vec<&str>, Error>)
    ensures
        match r {
            Ok(tags) => {
                &&& has_tags(note@)
                &&& ascending(str_views(tags@))
                &&& str_views(tags@).to_set() == tag_set(note@)
            },
            Err(e) => e is NoTagsFound && !has_tags(note@),
        },
{
    let chars = chars_of(note);
    let n = chars.len();
    let mut spans: Vec<(usize, usize)> = Vec::new();
    let mut i: usize = 0;
    while i < n
        invariant
            n == chars.len(),
            chars@ == note@,
            i <= n,
            spans_fit(spans@, n as nat),
            ascending(span_texts(chars@, spans@)),
            forall|t: Seq<char>|
                span_texts(chars@, spans@).contains(t) <==> exists|j: int|
                    j < i && tag_starts_at(chars@, j) && tag_at(chars@, j) == t,
        decreases n - i,
    {
        if chars[i] == '#' && (i == 0 || is_space(chars[i - 1])) && i + 1 < n && is_tag_character(
            chars[i + 1],
        ) {
            let mut end: usize = i + 1;
            while end < n && is_tag_character(chars[end])
                invariant
                    n == chars.len(),
                    i + 1 <= end <= n,
                    tag_end(chars@, i + 1) == tag_end(chars@, end as int),
                decreases n - end,
            {
                end += 1;
            }
            let ghost found = span_texts(chars@, spans@);
            insert_span(&mut spans, &chars, i + 1, end);
            proof {
                assert(tag_starts_at(chars@, i as int));
                assert(tag_at(chars@, i as int) == chars@.subrange(i + 1, end as int));
                let now = span_texts(chars@, spans@);
                assert forall|t: Seq<char>| now.contains(t) <==> exists|j: int|
                    j < i + 1 && tag_starts_at(chars@, j) && tag_at(chars@, j) == t by {
                    if now.contains(t) {
                        if found.contains(t) {
                            let j = choose|j: int|
                                j < i && tag_starts_at(chars@, j) && tag_at(chars@, j) == t;
                            assert(j < i + 1 && tag_starts_at(chars@, j) && tag_at(chars@, j) == t);
                        } else {
                            assert(tag_starts_at(chars@, i as int) && tag_at(chars@, i as int)
                                == t);
                        }
                    }
                    if exists|j: int|
                        j < i + 1 && tag_starts_at(chars@, j) && tag_at(chars@, j) == t {
                        let j = choose|j: int|
                            j < i + 1 && tag_starts_at(chars@, j) && tag_at(chars@, j) == t;
                        if j < i {
                            assert(found.contains(t));
                        }
                    }
                }
            }
        } else {
            proof {
                assert(!tag_starts_at(chars@, i as int));
                let now = span_texts(chars@, spans@);
                assert forall|t: Seq<char>| now.contains(t) <==> exists|j: int|
                    j < i + 1 && tag_starts_at(chars@, j) && tag_at(chars@, j) == t by {
                    if now.contains(t) {
                        let j = choose|j: int|
                            j < i && tag_starts_at(chars@, j) && tag_at(chars@, j) == t;
                        assert(j < i + 1 && tag_starts_at(chars@, j) && tag_at(chars@, j) == t);
                    }
                    if exists|j: int|
                        j < i + 1 && tag_starts_at(chars@, j) && tag_at(chars@, j) == t {
                        let j = choose|j: int|
                            j < i + 1 && tag_starts_at(chars@, j) && tag_at(chars@, j) == t;
                        assert(j < i);
                    }
                }
            }
        }
        i += 1;
    }
    let ghost texts = span_texts(chars@, spans@);
    if spans.len() == 0 {
        proof {
            if has_tags(note@) {
                let j = choose|j: int| tag_starts_at(note@, j);
                assert(texts.contains(tag_at(note@, j)));
            }
        }
        return Err(Error::NoTagsFound);
    }
    let mut tags: Vec<&str> = Vec::new();
    let mut k: usize = 0;
    while k < spans.len()
        invariant
            chars@ == note@,
            spans_fit(spans@, note@.len()),
            texts == span_texts(chars@, spans@),
            k <= spans.len(),
            str_views(tags@) == texts.take(k as int),
        decreases spans.len() - k,
    {
        let span = spans[k];
        let tag = note.substring_char(span.0, span.1);
        tags.push(tag);
        assert(str_views(tags@) =~= texts.take(k as int).push(texts[k as int]));
        assert(texts.take(k + 1) =~= texts.take(k as int).push(texts[k as int]));
        k += 1;
    }
    proof {
        assert(texts.take(spans.len() as int) =~= texts);
        assert(texts.contains(texts[0]));
        let j = choose|j: int| tag_starts_at(chars@, j) && tag_at(chars@, j) == texts[0];
        assert(tag_starts_at(note@, j));
        assert(texts.to_set() =~= tag_set(note@)) by {
            assert forall|t: Seq<char>| texts.to_set().contains(t) <==> tag_set(note@).contains(
                t,
            ) by {
                if texts.contains(t) {
                    let j = choose|j: int|
                        j < n && tag_starts_at(chars@, j) && tag_at(chars@, j) == t;
                    assert(tag_starts_at(note@, j) && tag_at(note@, j) == t);
                }
                if is_tag_of(note@, t) {
                    let j = choose|j: int| tag_starts_at(note@, j) && tag_at(note@, j) == t;
                    assert(j < n);
                }
            }
        }
    }
    Ok(tags)
}

} // verus!
