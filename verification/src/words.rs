//! Words of a text, and the rate at which a transcript gets them wrong.

use crate::distance::{
    best_script, cost, distance, edit_distance, law_distance_is_least, law_distance_is_reached,
    law_distance_zero, law_nothing_in_common, turns, Edit,
};
use crate::text::{index_where, lemma_index_where, lemma_index_where_found, substring, texts, to_chars};
use vstd::prelude::*;
use vstd::utf8::is_ascii_chars;

verus! {

/// Whether `c` is an ASCII letter or digit.
pub open spec fn ascii_alphanumeric(c: char) -> bool {
    'a' <= c <= 'z' || 'A' <= c <= 'Z' || '0' <= c <= '9'
}

/// `c` with an ASCII capital letter made small.
pub open spec fn ascii_lower(c: char) -> char {
    if 'A' <= c <= 'Z' {
        (c as u32 + 32) as char
    } else {
        c
    }
}

/// `char::is_alphanumeric` of a character beyond ASCII.
pub uninterp spec fn unicode_alphanumeric(c: char) -> bool;

/// `str::to_lowercase` of a text with a character beyond ASCII.
pub uninterp spec fn unicode_lowercase(s: Seq<char>) -> Seq<char>;

/// Whether `c` is a letter or a digit.
pub open spec fn alphanumeric(c: char) -> bool {
    if c <= '\u{7f}' {
        ascii_alphanumeric(c)
    } else {
        unicode_alphanumeric(c)
    }
}

/// A text in lower case.
pub open spec fn lowercase(s: Seq<char>) -> Seq<char> {
    if is_ascii_chars(s) {
        s.map_values(|c: char| ascii_lower(c))
    } else {
        unicode_lowercase(s)
    }
}

/// Trusted: `char::is_alphanumeric` holds of the ASCII letters and digits and
/// of no other ASCII character. Beyond ASCII it goes by the Unicode tables,
/// and its answer depends on the character alone.
#[verifier::external_body]
fn is_alphanumeric(c: char) -> (r: bool)
    ensures
        r == (if c <= '\u{7f}' {
            ascii_alphanumeric(c)
        } else {
            unicode_alphanumeric(c)
        }),
{
    c.is_alphanumeric()
}

/// Trusted: `str::to_lowercase` makes the capital letters of an ASCII text
/// small and keeps its other characters. Beyond ASCII it goes by the Unicode
/// tables, and its result depends on the text alone. Left unsaid is how the
/// lower-case form of a text beyond ASCII is made of those of its parts: what
/// a letter becomes there can depend on its neighbours, as a capital sigma
/// becomes another letter at the end of a word.
#[verifier::external_body]
fn to_lowercase(s: &str) -> (r: String)
    ensures
        r@ == (if is_ascii_chars(s@) {
            s@.map_values(|c: char| ascii_lower(c))
        } else {
            unicode_lowercase(s@)
        }),
{
    s.to_lowercase()
}

/// Whether `c` is not part of a word: neither letter, digit nor apostrophe.
pub open spec fn separates(c: char) -> bool {
    !(alphanumeric(c) || c == '\'')
}

/// The pieces of `s` between its separators, empty ones included.
pub open spec fn fields(s: Seq<char>) -> Seq<Seq<char>>
    decreases s.len(),
    via fields_decreases
{
    let end = index_where(s, |c: char| separates(c)) as int;
    if end >= s.len() {
        seq![s]
    } else {
        seq![s.take(end)] + fields(s.skip(end + 1))
    }
}

#[via_fn]
proof fn fields_decreases(s: Seq<char>) {
}

/// The words of a text in lower case: its pieces that are not empty.
pub open spec fn words_in(lowered: Seq<char>) -> Seq<Seq<char>> {
    fields(lowered).filter(|f: Seq<char>| f.len() > 0)
}

/// The words of a text, in lower case.
pub open spec fn words(text: Seq<char>) -> Seq<Seq<char>> {
    words_in(lowercase(text))
}

proof fn lemma_filter_one(f: Seq<char>)
    ensures
        seq![f].filter(|f: Seq<char>| f.len() > 0) == (if f.len() > 0 {
            seq![f]
        } else {
            Seq::empty()
        }),
{
    let p = |f: Seq<char>| f.len() > 0;
    let one = seq![f];
    reveal_with_fuel(Seq::filter, 2);
    assert(one.drop_last() =~= Seq::empty());
    assert(one.last() == f);
    assert(one.filter(p) =~= (if f.len() > 0 {
        seq![f]
    } else {
        Seq::empty()
    }));
}

/// A piece that ends at a separator, or at the end, comes before the words of
/// the rest.
proof fn lemma_next_word(s: Seq<char>, end: int)
    requires
        0 <= end <= s.len(),
        forall|k: int| 0 <= k < end ==> !separates(#[trigger] s[k]),
        end < s.len() ==> separates(s[end]),
    ensures
        words_in(s) == (if end > 0 {
            seq![s.take(end)]
        } else {
            Seq::empty()
        }) + (if end < s.len() {
            words_in(s.skip(end + 1))
        } else {
            Seq::empty()
        }),
{
    let p = |f: Seq<char>| f.len() > 0;
    lemma_index_where(s, |c: char| separates(c), end as nat);
    if end < s.len() {
        let rest = fields(s.skip(end + 1));
        lemma_filter_one(s.take(end));
        Seq::filter_distributes_over_add(seq![s.take(end)], rest, p);
        assert(words_in(s) =~= seq![s.take(end)].filter(p) + rest.filter(p));
    } else {
        lemma_filter_one(s);
        assert(s.take(end) =~= s);
    }
    assert(words_in(s) =~= (if end > 0 {
        seq![s.take(end)]
    } else {
        Seq::empty()
    }) + (if end < s.len() {
        words_in(s.skip(end + 1))
    } else {
        Seq::empty()
    }));
}

/// The words of a text that is in lower case already.
pub fn split_words(lowered: &str) -> (r: Vec<String>)
    ensures
        texts(r@) == words_in(lowered@),
        r.len() < usize::MAX,
{
    let chars = to_chars(lowered);
    let mut out: Vec<String> = Vec::new();
    let mut start: usize = 0;
    let mut i: usize = 0;
    proof {
        assert(chars@.skip(0) =~= chars@);
        assert(texts(out@) =~= Seq::empty());
        assert(texts(out@) + words_in(chars@.skip(0)) =~= words_in(chars@));
    }
    while i < chars.len()
        invariant
            start <= i <= chars.len(),
            2 * out.len() <= start,
            forall|k: int| start <= k < i ==> !separates(#[trigger] chars[k]),
            texts(out@) + words_in(chars@.skip(start as int)) == words_in(chars@),
        decreases chars.len() - i,
    {
        let c = chars[i];
        if !(is_alphanumeric(c) || c == '\'') {
            let ghost rest = chars@.skip(start as int);
            let ghost before = texts(out@);
            proof {
                lemma_next_word(rest, i - start);
                assert(rest.take(i - start) =~= chars@.subrange(start as int, i as int));
                assert(rest.skip(i - start + 1) =~= chars@.skip(i + 1));
            }
            if start < i {
                let word = substring(&chars, start, i);
                out.push(word);
                proof {
                    assert(texts(out@) =~= before.push(word@));
                }
            }
            proof {
                assert(texts(out@) + words_in(chars@.skip(i + 1)) =~= before + words_in(rest));
            }
            start = i + 1;
        }
        i = i + 1;
    }
    let ghost rest = chars@.skip(start as int);
    let ghost before = texts(out@);
    proof {
        lemma_next_word(rest, i - start);
        assert(rest.take(i - start) =~= chars@.subrange(start as int, i as int));
    }
    if start < i {
        let word = substring(&chars, start, i);
        out.push(word);
        proof {
            assert(texts(out@) =~= before.push(word@));
        }
    }
    proof {
        assert(texts(out@) =~= before + words_in(rest));
    }
    out
}

/// The words of `text` in lower case. A word is made of letters, digits and
/// apostrophes; everything else separates words.
pub fn normalize_words(text: &str) -> (r: Vec<String>)
    ensures
        texts(r@) == words(text@),
        is_ascii_chars(text@) ==> texts(r@) == words_in(
            text@.map_values(|c: char| ascii_lower(c)),
        ),
        !is_ascii_chars(text@) ==> texts(r@) == words_in(unicode_lowercase(text@)),
        r.len() < usize::MAX,
{
    let lowered = to_lowercase(text);
    split_words(lowered.as_str())
}

/// Word errors over reference words, kept as a fraction.
#[derive(Clone, Copy, Debug, PartialEq, Eq, Structural)]
pub struct WordErrorRate {
    pub errors: usize,
    pub words: usize,
}

impl WordErrorRate {
    /// A rate is a fraction of at least one word.
    pub open spec fn wf(self) -> bool {
        self.words > 0
    }

    /// Whether the rate `self` is at most the rate `other`.
    pub open spec fn at_most(self, other: WordErrorRate) -> bool {
        self.errors * other.words <= other.errors * self.words
    }
}

/// `w` without the apostrophes before its first other character.
pub open spec fn bare_start(w: Seq<char>) -> Seq<char> {
    w.skip(index_where(w, |c: char| c != '\'') as int)
}

/// `w` without the apostrophes behind its last other character.
pub open spec fn bare_end(w: Seq<char>) -> Seq<char>
    decreases w.len(),
{
    if w.len() > 0 && w.last() == '\'' {
        bare_end(w.drop_last())
    } else {
        w
    }
}

/// `w` without the apostrophes at its two ends, which are quotation marks.
/// Those inside it stay.
pub open spec fn bare(w: Seq<char>) -> Seq<char> {
    bare_end(bare_start(w))
}

/// The given words without quotation marks; what was nothing else is dropped.
pub open spec fn unquoted(words: Seq<Seq<char>>) -> Seq<Seq<char>> {
    words.map_values(|w: Seq<char>| bare(w)).filter(|w: Seq<char>| w.len() > 0)
}

/// The words of a text that are scored.
pub open spec fn scored_words(text: Seq<char>) -> Seq<Seq<char>> {
    unquoted(words(text))
}

/// `w` without the apostrophes at its two ends.
fn strip_quotes(w: &str) -> (r: String)
    ensures
        r@ == bare(w@),
{
    let chars = to_chars(w);
    let mut from: usize = 0;
    while from < chars.len() && chars[from] == '\''
        invariant
            from <= chars.len(),
            forall|k: int| 0 <= k < from ==> #[trigger] chars[k] == '\'',
        decreases chars.len() - from,
    {
        from = from + 1;
    }
    proof {
        lemma_index_where(chars@, |c: char| c != '\'', from as nat);
    }
    let ghost started = chars@.skip(from as int);
    let mut to: usize = chars.len();
    proof {
        assert(chars@.subrange(from as int, to as int) =~= started);
    }
    while to > from && chars[to - 1] == '\''
        invariant
            from <= to <= chars.len(),
            bare_end(chars@.subrange(from as int, to as int)) == bare_end(started),
        decreases to,
    {
        proof {
            assert(chars@.subrange(from as int, to as int).drop_last() =~= chars@.subrange(
                from as int,
                to - 1,
            ));
        }
        to = to - 1;
    }
    substring(&chars, from, to)
}

/// The given words without the apostrophes at their ends; what was nothing
/// else is dropped.
pub fn unquote(words: &Vec<String>) -> (r: Vec<String>)
    ensures
        texts(r@) == unquoted(texts(words@)),
        r.len() <= words.len(),
{
    let ghost all = texts(words@);
    let mut out: Vec<String> = Vec::new();
    let mut i: usize = 0;
    proof {
        reveal(Seq::filter);
        assert(texts(out@) =~= unquoted(all.take(0)));
    }
    while i < words.len()
        invariant
            i <= words.len(),
            all == texts(words@),
            out.len() <= i,
            texts(out@) == unquoted(all.take(i as int)),
        decreases words.len() - i,
    {
        let ghost before = texts(out@);
        let w = strip_quotes(words[i].as_str());
        proof {
            lemma_unquoted_push(all.take(i as int), all[i as int]);
            assert(all.take(i + 1) =~= all.take(i as int).push(all[i as int]));
        }
        if !w.as_str().is_empty() {
            out.push(w);
            proof {
                assert(texts(out@) =~= before.push(w@));
            }
        }
        i = i + 1;
    }
    proof {
        assert(all.take(i as int) =~= all);
    }
    out
}

proof fn lemma_unquoted_push(words: Seq<Seq<char>>, w: Seq<char>)
    ensures
        unquoted(words.push(w)) == (if bare(w).len() > 0 {
            unquoted(words).push(bare(w))
        } else {
            unquoted(words)
        }),
{
    let f = |w: Seq<char>| bare(w);
    reveal(Seq::filter);
    assert(words.push(w).map_values(f).drop_last() =~= words.map_values(f));
    assert(words.push(w).map_values(f).last() == bare(w));
}

/// The numerator and the denominator of the word error rate.
pub open spec fn rate(reference: Seq<char>, hypothesis: Seq<char>) -> (nat, nat) {
    let r = scored_words(reference);
    let h = scored_words(hypothesis);
    if r.len() > 0 {
        (distance(r, h), r.len())
    } else if h.len() == 0 {
        (0, 1)
    } else {
        (1, 1)
    }
}

/// Word error rate: word-level edit distance divided by the reference length.
/// Case and punctuation are ignored; an apostrophe is punctuation at the ends
/// of a word, but not inside it. Without reference words the rate is zero for
/// no words and one for any.
pub fn word_error_rate(reference: &str, hypothesis: &str) -> (w: WordErrorRate)
    ensures
        (w.errors as nat, w.words as nat) == rate(reference@, hypothesis@),
        w.wf(),
        w.words > 0,
        scored_words(reference@).len() > 0 ==> w.words == scored_words(reference@).len()
            && w.errors == distance(scored_words(reference@), scored_words(hypothesis@)),
        scored_words(reference@).len() == 0 ==> w.words == 1 && (w.errors == 0 || w.errors == 1)
            && (w.errors == 0 <==> scored_words(hypothesis@).len() == 0),
{
    let r = unquote(&normalize_words(reference));
    let h = unquote(&normalize_words(hypothesis));
    assert(texts(r@).len() == r.len());
    assert(texts(h@).len() == h.len());
    if r.len() == 0 {
        if h.len() == 0 {
            WordErrorRate { errors: 0, words: 1 }
        } else {
            WordErrorRate { errors: 1, words: 1 }
        }
    } else {
        let errors: usize = edit_distance(&r, &h);
        WordErrorRate { errors, words: r.len() }
    }
}

/// The rate is zero just when the same words of the reference and of the
/// transcript are scored.
pub proof fn law_rate_zero(reference: Seq<char>, hypothesis: Seq<char>)
    ensures
        rate(reference, hypothesis).0 == 0 <==> scored_words(reference) == scored_words(hypothesis),
        rate(reference, hypothesis).1 > 0,
{
    law_distance_zero(scored_words(reference), scored_words(hypothesis));
    if scored_words(reference).len() == 0 && scored_words(hypothesis).len() == 0 {
        assert(scored_words(reference) =~= scored_words(hypothesis));
    }
}

/// A text scores itself perfectly.
pub proof fn law_text_scores_itself(text: Seq<char>)
    ensures
        rate(text, text).0 == 0,
{
    law_rate_zero(text, text);
}

/// Case is ignored: texts with one lower-case form have the same words, and
/// score each other perfectly.
pub proof fn law_case_is_ignored(a: Seq<char>, b: Seq<char>)
    requires
        lowercase(a) == lowercase(b),
    ensures
        words(a) == words(b),
        scored_words(a) == scored_words(b),
        rate(a, b).0 == 0,
{
    law_rate_zero(a, b);
}

/// ASCII texts that differ in the case of their letters alone have one
/// lower-case form.
pub proof fn law_ascii_case_is_ignored(a: Seq<char>, b: Seq<char>)
    requires
        is_ascii_chars(a),
        is_ascii_chars(b),
        a.len() == b.len(),
        forall|i: int| 0 <= i < a.len() ==> ascii_lower(#[trigger] a[i]) == ascii_lower(b[i]),
    ensures
        lowercase(a) == lowercase(b),
        words(a) == words(b),
        rate(a, b).0 == 0,
{
    assert(lowercase(a) =~= lowercase(b));
    law_case_is_ignored(a, b);
}

/// Quotation marks are ignored: texts whose words are the same but for the
/// apostrophes at their ends score each other perfectly.
pub proof fn law_quotes_are_ignored(a: Seq<char>, b: Seq<char>)
    requires
        scored_words(a) == scored_words(b),
    ensures
        rate(a, b).0 == 0,
{
    law_rate_zero(a, b);
}

/// Apostrophes inside a word stay, those at its ends go.
pub proof fn law_bare(w: Seq<char>) -> (ends: (int, int))
    ensures
        0 <= ends.0 <= ends.1 <= w.len(),
        bare(w) == w.subrange(ends.0, ends.1),
        forall|k: int| 0 <= k < ends.0 ==> #[trigger] w[k] == '\'',
        forall|k: int| ends.1 <= k < w.len() ==> #[trigger] w[k] == '\'',
        bare(w).len() > 0 ==> bare(w)[0] != '\'' && bare(w).last() != '\'',
{
    let p = |c: char| c != '\'';
    lemma_index_where_found(w, p);
    let from = index_where(w, p) as int;
    let started = bare_start(w);
    let kept = lemma_bare_end(started);
    assert(bare(w) =~= w.subrange(from, from + kept));
    assert forall|k: int| 0 <= k < from implies #[trigger] w[k] == '\'' by {
        assert(!p(w[k]));
    }
    assert forall|k: int| from + kept <= k < w.len() implies #[trigger] w[k] == '\'' by {
        assert(started[k - from] == w[k]);
    }
    if from < w.len() {
        assert(p(w[from]));
        assert(started[0] == w[from]);
    }
    (from, from + kept)
}

proof fn lemma_bare_end(w: Seq<char>) -> (kept: int)
    ensures
        0 <= kept <= w.len(),
        bare_end(w) == w.take(kept),
        forall|k: int| kept <= k < w.len() ==> #[trigger] w[k] == '\'',
        kept > 0 ==> w[kept - 1] != '\'',
    decreases w.len(),
{
    if w.len() > 0 && w.last() == '\'' {
        let kept = lemma_bare_end(w.drop_last());
        assert(w.drop_last().take(kept) =~= w.take(kept));
        assert forall|k: int| kept <= k < w.len() implies #[trigger] w[k] == '\'' by {
            if k < w.len() - 1 {
                assert(w.drop_last()[k] == w[k]);
            }
        }
        kept
    } else {
        assert(w.take(w.len() as int) =~= w);
        w.len() as int
    }
}

/// One more apostrophe at an end of a word changes nothing.
proof fn lemma_bare_quoted(w: Seq<char>)
    ensures
        bare(seq!['\''] + w) == bare(w),
        bare(w.push('\'')) == bare(w),
{
    let p = |c: char| c != '\'';
    let before = seq!['\''] + w;
    assert(before.drop_first() =~= w);
    assert(bare_start(before) =~= bare_start(w)) by {
        lemma_index_where_found(w, p);
        assert(index_where(before, p) == 1 + index_where(w, p));
    }
    let behind = w.push('\'');
    lemma_index_where_found(w, p);
    let from = index_where(w, p) as int;
    if from < w.len() {
        assert forall|k: int| 0 <= k < from implies !p(#[trigger] behind[k]) by {
            assert(!p(w[k]));
        }
        assert(p(w[from]));
        lemma_index_where(behind, p, from as nat);
        assert(bare_start(behind) =~= bare_start(w).push('\''));
        assert(bare_start(behind).drop_last() =~= bare_start(w));
    } else {
        assert forall|k: int| 0 <= k < behind.len() implies !p(#[trigger] behind[k]) by {
            if k < w.len() {
                assert(!p(w[k]));
            }
        }
        lemma_index_where(behind, p, behind.len());
        assert(bare_start(behind) =~= Seq::empty());
        assert(bare_start(w) =~= Seq::empty());
    }
}

proof fn lemma_unquoted_add(a: Seq<Seq<char>>, b: Seq<Seq<char>>)
    ensures
        unquoted(a + b) == unquoted(a) + unquoted(b),
{
    let f = |w: Seq<char>| bare(w);
    assert((a + b).map_values(f) =~= a.map_values(f) + b.map_values(f));
    Seq::filter_distributes_over_add(
        a.map_values(f),
        b.map_values(f),
        |w: Seq<char>| w.len() > 0,
    );
}

/// The words that are scored of one word, or of none.
proof fn lemma_unquoted_one(w: Seq<char>)
    ensures
        unquoted(if w.len() > 0 {
            seq![w]
        } else {
            Seq::empty()
        }) == (if bare(w).len() > 0 {
            seq![bare(w)]
        } else {
            Seq::empty()
        }),
{
    let none = Seq::<Seq<char>>::empty();
    reveal(Seq::filter);
    assert(unquoted(none) =~= none);
    law_bare(w);
    if w.len() > 0 {
        lemma_unquoted_push(none, w);
        assert(none.push(w) =~= seq![w]);
        assert(none.push(bare(w)) =~= seq![bare(w)]);
    }
}

/// A quotation mark at the start or at the end of a text in lower case changes
/// nothing in its score.
pub proof fn law_quote_at_end_of_text(lowered: Seq<char>)
    ensures
        unquoted(words_in(seq!['\''] + lowered)) == unquoted(words_in(lowered)),
        unquoted(words_in(lowered.push('\''))) == unquoted(words_in(lowered)),
    decreases lowered.len(),
{
    let p = |c: char| separates(c);
    lemma_index_where_found(lowered, p);
    let end = index_where(lowered, p) as int;
    assert forall|k: int| 0 <= k < end implies !separates(#[trigger] lowered[k]) by {
        assert(!p(lowered[k]));
    }
    assert(end < lowered.len() ==> p(lowered[end]));
    let first = lowered.take(end);
    lemma_next_word(lowered, end);
    lemma_bare_quoted(first);
    lemma_unquoted_one(first);

    let before = seq!['\''] + lowered;
    assert forall|k: int| 0 <= k < end + 1 implies !separates(#[trigger] before[k]) by {
        if k > 0 {
            assert(before[k] == lowered[k - 1]);
        }
    }
    lemma_next_word(before, end + 1);
    assert(before.take(end + 1) =~= seq!['\''] + first);
    lemma_unquoted_one(seq!['\''] + first);

    let behind = lowered.push('\'');
    let one = if end > 0 {
        seq![first]
    } else {
        Seq::empty()
    };
    if end < lowered.len() {
        let rest = lowered.skip(end + 1);
        assert(before.skip(end + 2) =~= rest);
        lemma_unquoted_add(one, words_in(rest));
        lemma_unquoted_add(seq![seq!['\''] + first], words_in(rest));
        lemma_next_word(behind, end);
        assert(behind.take(end) =~= first);
        assert(behind.skip(end + 1) =~= rest.push('\''));
        law_quote_at_end_of_text(rest);
        lemma_unquoted_add(one, words_in(rest.push('\'')));
    } else {
        assert(words_in(lowered) =~= one);
        assert(words_in(before) =~= seq![seq!['\''] + first]);
        assert forall|k: int| 0 <= k < end + 1 implies !separates(#[trigger] behind[k]) by {
            if k < end {
                assert(behind[k] == lowered[k]);
            }
        }
        lemma_next_word(behind, end + 1);
        assert(behind.take(end + 1) =~= first.push('\''));
        lemma_unquoted_one(first.push('\''));
        assert(words_in(behind) =~= seq![first.push('\'')]);
    }
}

/// A quotation mark at the start or at the end of any word of a text in lower
/// case, and so next to a separator, changes nothing in its score.
pub proof fn law_quote_at_separator(a: Seq<char>, c: char, b: Seq<char>)
    requires
        separates(c),
    ensures
        unquoted(words_in(a.push(c) + (seq!['\''] + b))) == unquoted(words_in(a.push(c) + b)),
        unquoted(words_in(a.push('\'').push(c) + b)) == unquoted(words_in(a.push(c) + b)),
{
    law_separator_splits(a, c, b);
    law_separator_splits(a, c, seq!['\''] + b);
    law_separator_splits(a.push('\''), c, b);
    law_quote_at_end_of_text(a);
    law_quote_at_end_of_text(b);
    lemma_unquoted_add(words_in(a), words_in(b));
    lemma_unquoted_add(words_in(a), words_in(seq!['\''] + b));
    lemma_unquoted_add(words_in(a.push('\'')), words_in(b));
}

/// A separator, whichever it is, only ends a word, so that what stands before
/// it and what stands behind it keep their words.
pub proof fn law_separator_splits(a: Seq<char>, c: char, b: Seq<char>)
    requires
        separates(c),
    ensures
        words_in(a.push(c) + b) == words_in(a) + words_in(b),
    decreases a.len(),
{
    let p = |c: char| separates(c);
    let whole = a.push(c) + b;
    lemma_index_where_found(a, p);
    let end = index_where(a, p) as int;
    assert forall|k: int| 0 <= k < end implies !separates(#[trigger] whole[k]) by {
        assert(!p(a[k]));
    }
    if end < a.len() {
        assert(p(a[end]));
        let tail = a.skip(end + 1);
        law_separator_splits(tail, c, b);
        lemma_next_word(whole, end);
        assert forall|k: int| 0 <= k < end implies !separates(#[trigger] a[k]) by {
            assert(!p(a[k]));
        }
        lemma_next_word(a, end);
        assert(whole.take(end) =~= a.take(end));
        assert(whole.skip(end + 1) =~= tail.push(c) + b);
        assert(words_in(whole) =~= words_in(a) + words_in(b));
    } else {
        assert forall|k: int| 0 <= k < end implies !separates(#[trigger] a[k]) by {
            assert(!p(a[k]));
        }
        lemma_next_word(whole, end);
        lemma_next_word(a, end);
        assert(whole.take(end) =~= a.take(end));
        assert(whole.skip(end + 1) =~= b);
        assert(words_in(whole) =~= words_in(a) + words_in(b));
    }
}

/// The same of texts as they are read, in either case, wherever the lower-case
/// form of the whole is made of those of the parts.
pub proof fn law_text_splits(a: Seq<char>, c: char, b: Seq<char>)
    requires
        separates(c),
        lowercase(a.push(c) + b) == lowercase(a).push(c) + lowercase(b),
    ensures
        words(a.push(c) + b) == words(a) + words(b),
        scored_words(a.push(c) + b) == scored_words(a) + scored_words(b),
{
    law_separator_splits(lowercase(a), c, lowercase(b));
    lemma_unquoted_add(words(a), words(b));
}

/// It is so of ASCII texts.
pub proof fn law_ascii_separator_splits(a: Seq<char>, c: char, b: Seq<char>)
    requires
        is_ascii_chars(a),
        is_ascii_chars(b),
        c <= '\u{7f}',
        separates(c),
    ensures
        words(a.push(c) + b) == words(a) + words(b),
        scored_words(a.push(c) + b) == scored_words(a) + scored_words(b),
{
    assert(is_ascii_chars(a.push(c) + b));
    assert(lowercase(a.push(c) + b) =~= lowercase(a).push(c) + lowercase(b));
    law_text_splits(a, c, b);
}

/// A word is never empty and holds no separator.
pub proof fn law_words_are_whole(lowered: Seq<char>, i: int)
    requires
        0 <= i < words_in(lowered).len(),
    ensures
        words_in(lowered)[i].len() > 0,
        forall|k: int|
            0 <= k < words_in(lowered)[i].len() ==> !separates(#[trigger] words_in(lowered)[i][k]),
    decreases lowered.len(),
{
    let p = |c: char| separates(c);
    lemma_index_where_found(lowered, p);
    let end = index_where(lowered, p) as int;
    assert forall|k: int| 0 <= k < end implies !separates(#[trigger] lowered[k]) by {
        assert(!p(lowered[k]));
    }
    assert(end < lowered.len() ==> p(lowered[end]));
    lemma_next_word(lowered, end);
    if end > 0 && i == 0 {
        assert(words_in(lowered)[0] == lowered.take(end));
    } else {
        let from: int = if end > 0 {
            1
        } else {
            0
        };
        law_words_are_whole(lowered.skip(end + 1), i - from);
        assert(words_in(lowered)[i] == words_in(lowered.skip(end + 1))[i - from]);
    }
}

/// The errors are the least edits: with a word in the reference, every list of
/// edits that turns the scored words of the reference into those of the
/// transcript costs at least as many, some list costs just as many, and the
/// words are those of the reference.
pub proof fn law_errors_are_least_edits(
    reference: Seq<char>,
    hypothesis: Seq<char>,
    script: Seq<Edit<Seq<char>>>,
)
    requires
        scored_words(reference).len() > 0,
    ensures
        rate(reference, hypothesis).0 == distance(
            scored_words(reference),
            scored_words(hypothesis),
        ),
        rate(reference, hypothesis).1 == scored_words(reference).len(),
        turns(script, scored_words(reference), scored_words(hypothesis)) ==> rate(
            reference,
            hypothesis,
        ).0 <= cost(script),
        exists|s: Seq<Edit<Seq<char>>>| #[trigger]
            turns(s, scored_words(reference), scored_words(hypothesis)) && cost(s) == rate(
                reference,
                hypothesis,
            ).0,
{
    let r = scored_words(reference);
    let h = scored_words(hypothesis);
    law_distance_is_reached(r, h);
    assert(turns(best_script(r, h), r, h));
    if turns(script, r, h) {
        law_distance_is_least(script, r, h);
    }
}

/// A transcript that has no word of the reference, and not more words, gets
/// every word wrong.
pub proof fn law_all_words_wrong(reference: Seq<char>, hypothesis: Seq<char>)
    requires
        scored_words(reference).len() > 0,
        scored_words(hypothesis).len() <= scored_words(reference).len(),
        forall|i: int, j: int|
            0 <= i < scored_words(reference).len() && 0 <= j < scored_words(hypothesis).len()
                ==> #[trigger] scored_words(reference)[i] != #[trigger] scored_words(
                hypothesis,
            )[j],
    ensures
        rate(reference, hypothesis).0 == rate(reference, hypothesis).1,
        rate(reference, hypothesis).1 == scored_words(reference).len(),
{
    law_nothing_in_common(scored_words(reference), scored_words(hypothesis));
}

/// Without words in the reference, the rate is zero for no words and one for
/// any.
pub proof fn law_rate_without_reference_words(reference: Seq<char>, hypothesis: Seq<char>)
    requires
        scored_words(reference).len() == 0,
    ensures
        rate(reference, hypothesis).1 == 1,
        scored_words(hypothesis).len() == 0 ==> rate(reference, hypothesis).0 == 0,
        scored_words(hypothesis).len() > 0 ==> rate(reference, hypothesis).0 == 1,
{
}

/// Of the ASCII characters, the letters, the digits and the apostrophe are part
/// of words and the others separate them. Beyond ASCII, the letters and digits
/// are part of words.
pub proof fn law_separators(c: char)
    ensures
        c <= '\u{7f}' ==> (separates(c) <==> !(('a' <= c && c <= 'z') || ('A' <= c && c <= 'Z') || (
        '0' <= c && c <= '9') || c == '\'')),
        c > '\u{7f}' ==> (separates(c) <==> !unicode_alphanumeric(c)),
{
}

/// The lower-case form of an ASCII text is as long as the text; its capital
/// letters are moved by the distance between the two alphabets, and its other
/// characters stay.
pub proof fn law_ascii_lowercase(s: Seq<char>, i: int)
    requires
        is_ascii_chars(s),
        0 <= i < s.len(),
    ensures
        lowercase(s).len() == s.len(),
        'A' <= s[i] <= 'Z' ==> lowercase(s)[i] as int - 'a' as int == s[i] as int - 'A' as int,
        !('A' <= s[i] <= 'Z') ==> lowercase(s)[i] == s[i],
{
}

/// Nothing has no words, and a text without separator is one word, all of it.
pub proof fn law_single_word(w: Seq<char>)
    requires
        forall|k: int| 0 <= k < w.len() ==> !separates(#[trigger] w[k]),
    ensures
        w.len() == 0 ==> words_in(w) == Seq::<Seq<char>>::empty(),
        w.len() > 0 ==> words_in(w) == seq![w],
{
    lemma_next_word(w, w.len() as int);
    assert(w.take(w.len() as int) =~= w);
    assert(words_in(w) =~= (if w.len() > 0 {
        seq![w]
    } else {
        Seq::empty()
    }));
}

/// The words of a text are those of its lower-case form.
pub proof fn law_words(text: Seq<char>)
    ensures
        words(text) == words_in(lowercase(text)),
        !is_ascii_chars(text) ==> lowercase(text) == unicode_lowercase(text),
        scored_words(text) == unquoted(words(text)),
{
}

/// Of several words those are scored that are scored of each; of one word it is
/// the word without the apostrophes at its ends, if anything is left of it.
pub proof fn law_unquoted(a: Seq<Seq<char>>, w: Seq<char>, b: Seq<Seq<char>>)
    ensures
        unquoted(Seq::empty()) == Seq::<Seq<char>>::empty(),
        unquoted(a + b) == unquoted(a) + unquoted(b),
        bare(w).len() > 0 ==> unquoted(seq![w]) == seq![bare(w)],
        bare(w).len() == 0 ==> unquoted(seq![w]) == Seq::<Seq<char>>::empty(),
{
    let none = Seq::<Seq<char>>::empty();
    reveal(Seq::filter);
    assert(unquoted(none) =~= none);
    lemma_unquoted_add(a, b);
    lemma_unquoted_push(none, w);
    assert(none.push(w) =~= seq![w]);
    assert(none.push(bare(w)) =~= seq![bare(w)]);
}

/// Of apostrophes, a text that neither starts nor ends with one, and
/// apostrophes, the text is left.
pub proof fn law_bare_leaves_the_text(before: Seq<char>, t: Seq<char>, behind: Seq<char>)
    requires
        forall|i: int| 0 <= i < before.len() ==> #[trigger] before[i] == '\'',
        forall|i: int| 0 <= i < behind.len() ==> #[trigger] behind[i] == '\'',
        t.len() > 0 ==> t[0] != '\'' && t[t.len() - 1] != '\'',
    ensures
        bare(before + t + behind) == t,
{
    let w = before + t + behind;
    let ends = law_bare(w);
    if t.len() > 0 {
        let first = before.len() as int;
        let last = first + t.len() - 1;
        assert(w[first] == t[0]);
        assert(w[last] == t[t.len() - 1]);
        if ends.0 < first {
            assert(bare(w)[0] == w[ends.0]);
            assert(w[ends.0] == before[ends.0]);
        }
        if ends.1 > last + 1 {
            assert(bare(w).last() == w[ends.1 - 1]);
            assert(w[ends.1 - 1] == behind[ends.1 - 1 - first - t.len()]);
        }
        assert(bare(w) =~= t);
    } else if bare(w).len() > 0 {
        assert(bare(w)[0] == w[ends.0]);
        if ends.0 < before.len() {
            assert(w[ends.0] == before[ends.0]);
        } else {
            assert(w[ends.0] == behind[ends.0 - before.len()]);
        }
    } else {
        assert(bare(w) =~= t);
    }
}

} // verus!
