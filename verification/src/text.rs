//! Characters, lines and white space.

use vstd::prelude::*;

verus! {

/// The texts behind a list of strings.
pub open spec fn texts(v: Seq<String>) -> Seq<Seq<char>> {
    v.map_values(|s: String| s@)
}

/// The characters with the Unicode property `White_Space`.
pub open spec fn is_white(c: char) -> bool {
    ||| '\u{9}' <= c <= '\u{d}'
    ||| c == ' '
    ||| c == '\u{85}'
    ||| c == '\u{a0}'
    ||| c == '\u{1680}'
    ||| '\u{2000}' <= c <= '\u{200a}'
    ||| c == '\u{2028}'
    ||| c == '\u{2029}'
    ||| c == '\u{202f}'
    ||| c == '\u{205f}'
    ||| c == '\u{3000}'
}

/// Whether `c` is white space.
pub fn is_whitespace(c: char) -> (r: bool)
    ensures
        r == is_white(c),
{
    ('\u{9}' <= c && c <= '\u{d}') || c == ' ' || c == '\u{85}' || c == '\u{a0}' || c
        == '\u{1680}' || ('\u{2000}' <= c && c <= '\u{200a}') || c == '\u{2028}' || c
        == '\u{2029}' || c == '\u{202f}' || c == '\u{205f}' || c == '\u{3000}'
}

/// The position of the first character of `s` for which `p` holds, or the
/// length of `s` where there is none.
pub open spec fn index_where(s: Seq<char>, p: spec_fn(char) -> bool) -> nat
    decreases s.len(),
{
    if s.len() == 0 || p(s[0]) {
        0
    } else {
        1 + index_where(s.drop_first(), p)
    }
}

/// `index_where` is the one position that has `p` at it, or the end after it,
/// and no `p` before it.
pub proof fn lemma_index_where(s: Seq<char>, p: spec_fn(char) -> bool, at: nat)
    requires
        at <= s.len(),
        forall|k: int| 0 <= k < at ==> !p(#[trigger] s[k]),
        at < s.len() ==> p(s[at as int]),
    ensures
        index_where(s, p) == at,
    decreases s.len(),
{
    if at > 0 {
        assert forall|k: int| 0 <= k < at - 1 implies !p(#[trigger] s.drop_first()[k]) by {
            assert(!p(s[k + 1]));
        }
        lemma_index_where(s.drop_first(), p, (at - 1) as nat);
        assert(!p(s[0]));
    }
}

/// What `index_where` finds.
pub proof fn lemma_index_where_found(s: Seq<char>, p: spec_fn(char) -> bool)
    ensures
        index_where(s, p) <= s.len(),
        forall|k: int| 0 <= k < index_where(s, p) ==> !p(#[trigger] s[k]),
        index_where(s, p) < s.len() ==> p(s[index_where(s, p) as int]),
    decreases s.len(),
{
    if s.len() > 0 && !p(s[0]) {
        let rest = s.drop_first();
        lemma_index_where_found(rest, p);
        assert forall|k: int| 0 <= k < index_where(s, p) implies !p(#[trigger] s[k]) by {
            if k > 0 {
                assert(!p(rest[k - 1]));
            }
        }
    }
}

/// Trusted: `String::push` puts one character behind the text and changes
/// nothing else.
pub assume_specification[ String::push ](s: &mut String, c: char)
    ensures
        final(s)@ == old(s)@.push(c),
;

/// The characters of a text, one by one.
pub fn to_chars(s: &str) -> (r: Vec<char>)
    ensures
        r@ == s@,
{
    let mut out: Vec<char> = Vec::new();
    for c in it: s.chars()
        invariant
            it.seq() == s@,
            out@ == s@.take(it.index() as int),
    {
        proof {
            assert(s@.take(it.index() + 1) =~= s@.take(it.index() as int).push(s@[it.index() as int]));
        }
        out.push(c);
    }
    proof {
        assert(s@.take(s@.len() as int) =~= s@);
    }
    out
}

/// The text made of the characters from `from` up to `to`.
pub fn substring(chars: &Vec<char>, from: usize, to: usize) -> (r: String)
    requires
        from <= to <= chars.len(),
    ensures
        r@ == chars@.subrange(from as int, to as int),
{
    let mut out = String::new();
    let mut i: usize = from;
    while i < to
        invariant
            from <= i <= to <= chars.len(),
            out@ == chars@.subrange(from as int, i as int),
        decreases to - i,
    {
        proof {
            assert(chars@.subrange(from as int, i + 1) =~= chars@.subrange(
                from as int,
                i as int,
            ).push(chars@[i as int]));
        }
        out.push(chars[i]);
        i = i + 1;
    }
    out
}

/// Whether a text is empty or white space only.
pub open spec fn blank(s: Seq<char>) -> bool {
    forall|i: int| 0 <= i < s.len() ==> is_white(#[trigger] s[i])
}

/// Whether `s` is empty or white space only.
pub fn is_blank(s: &str) -> (r: bool)
    ensures
        r == blank(s@),
{
    let chars = to_chars(s);
    let mut i: usize = 0;
    while i < chars.len()
        invariant
            i <= chars.len(),
            chars@ == s@,
            forall|k: int| 0 <= k < i ==> is_white(#[trigger] s@[k]),
        decreases chars.len() - i,
    {
        if !is_whitespace(chars[i]) {
            return false;
        }
        i = i + 1;
    }
    true
}

/// `s` without the white space before its first other character.
pub open spec fn trim_start(s: Seq<char>) -> Seq<char> {
    s.skip(index_where(s, |c: char| !is_white(c)) as int)
}

/// `s` without the white space behind its last other character.
pub open spec fn trim_end(s: Seq<char>) -> Seq<char>
    decreases s.len(),
{
    if s.len() > 0 && is_white(s.last()) {
        trim_end(s.drop_last())
    } else {
        s
    }
}

/// `s` without white space at its ends; see `law_trim`.
pub open spec fn trimmed(s: Seq<char>) -> Seq<char> {
    trim_end(trim_start(s))
}

/// `s` without white space at its ends.
pub fn trim(s: &str) -> (r: String)
    ensures
        r@ == trimmed(s@),
{
    let chars = to_chars(s);
    let mut from: usize = 0;
    while from < chars.len() && is_whitespace(chars[from])
        invariant
            from <= chars.len(),
            forall|k: int| 0 <= k < from ==> is_white(#[trigger] chars[k]),
        decreases chars.len() - from,
    {
        from = from + 1;
    }
    proof {
        lemma_index_where(chars@, |c: char| !is_white(c), from as nat);
    }
    let ghost started = chars@.skip(from as int);
    let mut to: usize = chars.len();
    proof {
        assert(chars@.subrange(from as int, to as int) =~= started);
    }
    while to > from && is_whitespace(chars[to - 1])
        invariant
            from <= to <= chars.len(),
            trim_end(chars@.subrange(from as int, to as int)) == trim_end(started),
        decreases to,
    {
        proof {
            assert(chars@.subrange(from as int, to as int).drop_last() =~= chars@.subrange(
                from as int,
                to - 1,
            ));
        }
        to = to - 1;
    }
    substring(&chars, from, to)
}

/// Trimming takes white space off the two ends, all of it, and nothing else.
pub proof fn law_trim(s: Seq<char>) -> (ends: (int, int))
    ensures
        0 <= ends.0 <= ends.1 <= s.len(),
        trimmed(s) == s.subrange(ends.0, ends.1),
        blank(s.take(ends.0)),
        blank(s.skip(ends.1)),
        trimmed(s).len() > 0 ==> !is_white(trimmed(s)[0]) && !is_white(trimmed(s).last()),
        trimmed(s).len() == 0 <==> blank(s),
{
    let p = |c: char| !is_white(c);
    lemma_index_where_found(s, p);
    let from = index_where(s, p) as int;
    let started = trim_start(s);
    let kept = lemma_trim_end(started);
    assert(trimmed(s) =~= s.subrange(from, from + kept));
    assert forall|i: int| 0 <= i < s.take(from).len() implies is_white(
        #[trigger] s.take(from)[i],
    ) by {
        assert(!p(s[i]));
    }
    assert forall|i: int| 0 <= i < s.skip(from + kept).len() implies is_white(
        #[trigger] s.skip(from + kept)[i],
    ) by {
        assert(started.skip(kept)[i] == s[from + kept + i]);
    }
    if from < s.len() {
        assert(p(s[from]));
        assert(started[0] == s[from]);
        if kept == 0 {
            assert(started.skip(0)[0] == started[0]);
        }
        assert(trimmed(s)[0] == s[from]);
    } else {
        assert forall|i: int| 0 <= i < s.len() implies is_white(#[trigger] s[i]) by {
            assert(!p(s[i]));
        }
    }
    (from, from + kept)
}

proof fn lemma_trim_end(s: Seq<char>) -> (kept: int)
    ensures
        0 <= kept <= s.len(),
        trim_end(s) == s.take(kept),
        blank(s.skip(kept)),
        kept > 0 ==> !is_white(s[kept - 1]),
    decreases s.len(),
{
    if s.len() > 0 && is_white(s.last()) {
        let kept = lemma_trim_end(s.drop_last());
        assert(s.drop_last().take(kept) =~= s.take(kept));
        assert forall|i: int| 0 <= i < s.skip(kept).len() implies is_white(
            #[trigger] s.skip(kept)[i],
        ) by {
            if kept + i < s.len() - 1 {
                assert(s.drop_last().skip(kept)[i] == s[kept + i]);
            }
        }
        kept
    } else {
        assert(s.take(s.len() as int) =~= s);
        s.len() as int
    }
}

/// The first stretch of `s` without white space, if there is one.
pub open spec fn first_word(s: Seq<char>) -> Option<Seq<char>> {
    let started = trim_start(s);
    if started.len() == 0 {
        None
    } else {
        Some(started.take(index_where(started, |c: char| is_white(c)) as int))
    }
}

/// The first of the fields of `s` that white space separates.
pub fn first_field(s: &str) -> (r: Option<String>)
    ensures
        r is Some <==> first_word(s@) is Some,
        r matches Some(field) ==> Some(field@) == first_word(s@),
{
    let chars = to_chars(s);
    let mut from: usize = 0;
    while from < chars.len() && is_whitespace(chars[from])
        invariant
            from <= chars.len(),
            forall|k: int| 0 <= k < from ==> is_white(#[trigger] chars[k]),
        decreases chars.len() - from,
    {
        from = from + 1;
    }
    proof {
        lemma_index_where(chars@, |c: char| !is_white(c), from as nat);
    }
    if from == chars.len() {
        return None;
    }
    let ghost started = chars@.skip(from as int);
    let mut to: usize = from;
    while to < chars.len() && !is_whitespace(chars[to])
        invariant
            from <= to <= chars.len(),
            forall|k: int| from <= k < to ==> !is_white(#[trigger] chars[k]),
        decreases chars.len() - to,
    {
        to = to + 1;
    }
    proof {
        lemma_index_where(started, |c: char| is_white(c), (to - from) as nat);
        assert(started.take(to - from) =~= chars@.subrange(from as int, to as int));
    }
    Some(substring(&chars, from, to))
}

/// A line without the carriage return that was part of its ending.
pub open spec fn without_cr(line: Seq<char>) -> Seq<char> {
    if line.len() > 0 && line.last() == '\r' {
        line.drop_last()
    } else {
        line
    }
}

/// The lines of a text. A line ends with a line feed, or with a carriage
/// return and a line feed; behind the last ending no empty line is counted.
pub open spec fn lines(s: Seq<char>) -> Seq<Seq<char>>
    decreases s.len(),
{
    let end = index_where(s, |c: char| c == '\n') as int;
    if s.len() == 0 {
        Seq::empty()
    } else if end >= s.len() {
        seq![s]
    } else {
        seq![without_cr(s.take(end))] + lines(s.skip(end + 1))
    }
}

/// The lines of `s`, without their endings.
pub fn split_lines(s: &str) -> (r: Vec<String>)
    ensures
        texts(r@) == lines(s@),
{
    let chars = to_chars(s);
    let mut out: Vec<String> = Vec::new();
    let mut start: usize = 0;
    let mut i: usize = 0;
    proof {
        assert(chars@.skip(0) =~= chars@);
        assert(texts(out@) + lines(chars@.skip(0)) =~= lines(chars@));
    }
    while i < chars.len()
        invariant
            start <= i <= chars.len(),
            forall|k: int| start <= k < i ==> #[trigger] chars[k] != '\n',
            texts(out@) + lines(chars@.skip(start as int)) == lines(chars@),
        decreases chars.len() - i,
    {
        if chars[i] == '\n' {
            let ghost rest = chars@.skip(start as int);
            let ghost before = texts(out@);
            let mut end: usize = i;
            if start < i && chars[i - 1] == '\r' {
                end = i - 1;
            }
            let line = substring(&chars, start, end);
            proof {
                lemma_index_where(rest, |c: char| c == '\n', (i - start) as nat);
                assert(rest.take(i - start) =~= chars@.subrange(start as int, i as int));
                assert(line@ =~= without_cr(rest.take(i - start)));
                assert(rest.skip(i - start + 1) =~= chars@.skip(i + 1));
            }
            out.push(line);
            proof {
                assert(texts(out@) =~= before.push(line@));
                assert(texts(out@) + lines(chars@.skip(i + 1)) =~= before + lines(rest));
            }
            start = i + 1;
        }
        i = i + 1;
    }
    let ghost rest = chars@.skip(start as int);
    let ghost before = texts(out@);
    if start < chars.len() {
        let line = substring(&chars, start, i);
        proof {
            lemma_index_where(rest, |c: char| c == '\n', rest.len());
            assert(line@ =~= rest);
        }
        out.push(line);
        proof {
            assert(texts(out@) =~= before.push(line@));
        }
    }
    proof {
        assert(texts(out@) =~= before + lines(rest));
    }
    out
}

/// No line holds a line feed.
pub proof fn law_lines_hold_no_line_feed(s: Seq<char>, i: int)
    requires
        0 <= i < lines(s).len(),
    ensures
        forall|k: int| 0 <= k < lines(s)[i].len() ==> #[trigger] lines(s)[i][k] != '\n',
    decreases s.len(),
{
    let p = |c: char| c == '\n';
    lemma_index_where_found(s, p);
    let end = index_where(s, p) as int;
    assert forall|k: int| 0 <= k < end implies #[trigger] s[k] != '\n' by {
        assert(!p(s[k]));
    }
    if s.len() > 0 && end < s.len() && i > 0 {
        law_lines_hold_no_line_feed(s.skip(end + 1), i - 1);
        assert(lines(s)[i] == lines(s.skip(end + 1))[i - 1]);
    }
}

/// Whether `c` ends a control sequence.
pub open spec fn ends_sequence(c: char) -> bool {
    '@' <= c <= '~'
}

/// `s` without terminal control: a control sequence (escape, `[`, and on up
/// to its final character) goes as a whole, and so does a lone escape.
pub open spec fn without_ansi(s: Seq<char>) -> Seq<char>
    decreases s.len(),
{
    if s.len() == 0 {
        s
    } else if s[0] != '\u{1b}' {
        seq![s[0]] + without_ansi(s.drop_first())
    } else if s.len() > 1 && s[1] == '[' {
        let behind = s.skip(2);
        let end = index_where(behind, |c: char| ends_sequence(c)) as int;
        if end < behind.len() {
            without_ansi(behind.skip(end + 1))
        } else {
            Seq::empty()
        }
    } else {
        without_ansi(s.drop_first())
    }
}

/// `s` without terminal control sequences, such as those that colour a log.
pub fn strip_ansi(s: &str) -> (r: String)
    ensures
        r@ == without_ansi(s@),
{
    let chars = to_chars(s);
    let mut out = String::new();
    let mut i: usize = 0;
    proof {
        assert(chars@.skip(0) =~= chars@);
        assert(out@ + without_ansi(chars@.skip(0)) =~= without_ansi(chars@));
    }
    while i < chars.len()
        invariant
            i <= chars.len(),
            out@ + without_ansi(chars@.skip(i as int)) == without_ansi(chars@),
        decreases chars.len() - i,
    {
        let ghost rest = chars@.skip(i as int);
        let ghost before = out@;
        proof {
            assert(rest.drop_first() =~= chars@.skip(i + 1));
        }
        if chars[i] != '\u{1b}' {
            out.push(chars[i]);
            proof {
                assert(out@ + without_ansi(chars@.skip(i + 1)) =~= before + without_ansi(rest));
            }
            i = i + 1;
        } else if chars.len() - i > 1 && chars[i + 1] == '[' {
            let from: usize = i + 2;
            let mut j: usize = from;
            while j < chars.len() && !('@' <= chars[j] && chars[j] <= '~')
                invariant
                    from <= j <= chars.len(),
                    forall|k: int| from <= k < j ==> !ends_sequence(#[trigger] chars[k]),
                decreases chars.len() - j,
            {
                j = j + 1;
            }
            proof {
                let behind = rest.skip(2);
                assert(behind =~= chars@.skip(from as int));
                lemma_index_where(behind, |c: char| ends_sequence(c), (j - from) as nat);
                if j < chars.len() {
                    assert(behind.skip(j - from + 1) =~= chars@.skip(j + 1));
                } else {
                    assert(chars@.skip(j as int) =~= Seq::empty());
                }
            }
            if j < chars.len() {
                i = j + 1;
            } else {
                i = j;
            }
        } else {
            i = i + 1;
        }
    }
    proof {
        assert(chars@.skip(i as int) =~= Seq::empty());
        assert(out@ + Seq::<char>::empty() =~= out@);
    }
    out
}

/// Stripping leaves no escape, changes nothing where there is none, and so
/// changes nothing the second time.
pub proof fn law_strip_ansi(s: Seq<char>)
    ensures
        forall|k: int| 0 <= k < without_ansi(s).len() ==> #[trigger] without_ansi(s)[k] != '\u{1b}',
        (forall|k: int| 0 <= k < s.len() ==> #[trigger] s[k] != '\u{1b}') ==> without_ansi(s) == s,
        without_ansi(without_ansi(s)) == without_ansi(s),
{
    lemma_no_escape_left(s);
    lemma_nothing_to_strip(without_ansi(s));
    if forall|k: int| 0 <= k < s.len() ==> #[trigger] s[k] != '\u{1b}' {
        lemma_nothing_to_strip(s);
    }
}

proof fn lemma_no_escape_left(s: Seq<char>)
    ensures
        forall|k: int| 0 <= k < without_ansi(s).len() ==> #[trigger] without_ansi(s)[k] != '\u{1b}',
    decreases s.len(),
{
    if s.len() > 0 {
        lemma_no_escape_left(s.drop_first());
        if s[0] == '\u{1b}' && s.len() > 1 && s[1] == '[' {
            let behind = s.skip(2);
            let end = index_where(behind, |c: char| ends_sequence(c)) as int;
            if end < behind.len() {
                lemma_no_escape_left(behind.skip(end + 1));
                assert(without_ansi(s) == without_ansi(behind.skip(end + 1)));
            } else {
                assert(without_ansi(s).len() == 0);
            }
        } else if s[0] != '\u{1b}' {
            let rest = without_ansi(s.drop_first());
            assert forall|k: int| 0 <= k < without_ansi(s).len() implies #[trigger] without_ansi(s)[k]
                != '\u{1b}' by {
                if k > 0 {
                    assert(without_ansi(s)[k] == rest[k - 1]);
                }
            }
        } else {
            assert(without_ansi(s) == without_ansi(s.drop_first()));
        }
    }
}

proof fn lemma_nothing_to_strip(s: Seq<char>)
    requires
        forall|k: int| 0 <= k < s.len() ==> #[trigger] s[k] != '\u{1b}',
    ensures
        without_ansi(s) == s,
    decreases s.len(),
{
    if s.len() > 0 {
        assert forall|k: int| 0 <= k < s.drop_first().len() implies #[trigger] s.drop_first()[k]
            != '\u{1b}' by {
            assert(s[k + 1] != '\u{1b}');
        }
        lemma_nothing_to_strip(s.drop_first());
        assert(seq![s[0]] + s.drop_first() =~= s);
    }
}

/// The parts in order, with one space between neighbours.
pub open spec fn spaced(parts: Seq<Seq<char>>) -> Seq<char>
    decreases parts.len(),
{
    if parts.len() == 0 {
        Seq::empty()
    } else if parts.len() == 1 {
        parts[0]
    } else {
        spaced(parts.drop_last()).push(' ') + parts.last()
    }
}

/// The parts from `from` on, with one space between neighbours.
pub fn join_from(parts: &Vec<String>, from: usize) -> (r: String)
    requires
        from <= parts.len(),
    ensures
        r@ == spaced(texts(parts@).skip(from as int)),
{
    let ghost all = texts(parts@).skip(from as int);
    let mut out = String::new();
    let mut i: usize = from;
    proof {
        assert(all.take(0) =~= Seq::empty());
    }
    while i < parts.len()
        invariant
            from <= i <= parts.len(),
            all == texts(parts@).skip(from as int),
            out@ == spaced(all.take(i - from)),
        decreases parts.len() - i,
    {
        let ghost next = all.take(i - from + 1);
        proof {
            assert(next.drop_last() =~= all.take(i - from));
            assert(next.last() == parts[i as int]@);
        }
        if i > from {
            out.push(' ');
        }
        out.append(parts[i].as_str());
        proof {
            assert(out@ =~= spaced(next));
        }
        i = i + 1;
    }
    proof {
        assert(all.take(i - from) =~= all);
    }
    out
}

/// Nothing is blank, one character is blank if it is white space, and two
/// texts put together are blank if both are.
pub proof fn law_blank(a: Seq<char>, c: char, b: Seq<char>)
    ensures
        blank(Seq::empty()),
        blank(seq![c]) <==> is_white(c),
        blank(a + b) <==> blank(a) && blank(b),
{
    if blank(seq![c]) {
        assert(is_white(seq![c][0]));
    }
    if blank(a + b) {
        assert forall|i: int| 0 <= i < a.len() implies is_white(#[trigger] a[i]) by {
            assert((a + b)[i] == a[i]);
        }
        assert forall|i: int| 0 <= i < b.len() implies is_white(#[trigger] b[i]) by {
            assert((a + b)[a.len() + i] == b[i]);
        }
    }
}

/// Of white space, a text and white space, trimming leaves the text.
pub proof fn law_trim_leaves_the_text(before: Seq<char>, t: Seq<char>, behind: Seq<char>)
    requires
        forall|i: int| 0 <= i < before.len() ==> is_white(#[trigger] before[i]),
        forall|i: int| 0 <= i < behind.len() ==> is_white(#[trigger] behind[i]),
        t.len() > 0 ==> !is_white(t[0]) && !is_white(t[t.len() - 1]),
    ensures
        trimmed(before + t + behind) == t,
{
    let s = before + t + behind;
    let ends = law_trim(s);
    if t.len() > 0 {
        let first = before.len() as int;
        let last = first + t.len() - 1;
        assert(s[first] == t[0]);
        assert(s[last] == t[t.len() - 1]);
        if ends.0 > first {
            assert(s.take(ends.0)[first] == s[first]);
        }
        if ends.1 <= last {
            assert(s.skip(ends.1)[last - ends.1] == s[last]);
        }
        if ends.0 < first {
            assert(trimmed(s)[0] == s[ends.0]);
            assert(s[ends.0] == before[ends.0]);
        }
        if ends.1 > last + 1 {
            assert(trimmed(s).last() == s[ends.1 - 1]);
            assert(s[ends.1 - 1] == behind[ends.1 - 1 - first - t.len()]);
        }
        assert(trimmed(s) =~= t);
    } else {
        assert forall|i: int| 0 <= i < s.len() implies is_white(#[trigger] s[i]) by {
            if i < before.len() {
                assert(s[i] == before[i]);
            } else {
                assert(s[i] == behind[i - before.len()]);
            }
        }
        assert(trimmed(s) =~= t);
    }
}

/// The first field is the first stretch without white space, all of it.
pub proof fn law_first_field(before: Seq<char>, field: Seq<char>, behind: Seq<char>)
    requires
        forall|i: int| 0 <= i < before.len() ==> is_white(#[trigger] before[i]),
        forall|i: int| 0 <= i < field.len() ==> !is_white(#[trigger] field[i]),
        behind.len() > 0 ==> is_white(behind[0]),
    ensures
        field.len() > 0 ==> first_word(before + field + behind) == Some(field),
        first_word(before) is None,
{
    let white = |c: char| is_white(c);
    let other = |c: char| !is_white(c);
    lemma_index_where(before, other, before.len());
    if field.len() > 0 {
        let s = before + field + behind;
        assert forall|k: int| 0 <= k < before.len() implies !other(#[trigger] s[k]) by {
            assert(s[k] == before[k]);
        }
        assert(s[before.len() as int] == field[0]);
        lemma_index_where(s, other, before.len());
        let started = field + behind;
        assert(trim_start(s) =~= started);
        assert forall|k: int| 0 <= k < field.len() implies !white(#[trigger] started[k]) by {
            assert(started[k] == field[k]);
        }
        if behind.len() > 0 {
            assert(started[field.len() as int] == behind[0]);
        }
        lemma_index_where(started, white, field.len());
        assert(started.take(field.len() as int) =~= field);
    }
}

/// The lines of a text come one after the other: a line that a line feed ends
/// is the first line, a carriage return before the line feed is not part of
/// it, and a text without line feed is one line.
pub proof fn law_lines(line: Seq<char>, rest: Seq<char>)
    requires
        forall|i: int| 0 <= i < line.len() ==> #[trigger] line[i] != '\n',
    ensures
        lines(Seq::empty()) == Seq::<Seq<char>>::empty(),
        line.len() > 0 ==> lines(line) == seq![line],
        lines(line.push('\r').push('\n') + rest) == seq![line] + lines(rest),
        line.len() == 0 || line[line.len() - 1] != '\r' ==> lines(line.push('\n') + rest)
            == seq![line] + lines(rest),
{
    let p = |c: char| c == '\n';
    if line.len() > 0 {
        lemma_index_where(line, p, line.len());
    }
    let with_cr = line.push('\r');
    let s = with_cr.push('\n') + rest;
    assert forall|k: int| 0 <= k < with_cr.len() implies !p(#[trigger] s[k]) by {
        if k < line.len() {
            assert(s[k] == line[k]);
        }
    }
    assert(s[with_cr.len() as int] == '\n');
    lemma_index_where(s, p, with_cr.len());
    assert(s.take(with_cr.len() as int) =~= with_cr);
    assert(with_cr.drop_last() =~= line);
    assert(s.skip(with_cr.len() as int + 1) =~= rest);
    let t = line.push('\n') + rest;
    assert forall|k: int| 0 <= k < line.len() implies !p(#[trigger] t[k]) by {
        assert(t[k] == line[k]);
    }
    assert(t[line.len() as int] == '\n');
    lemma_index_where(t, p, line.len());
    assert(t.take(line.len() as int) =~= line);
    assert(t.skip(line.len() as int + 1) =~= rest);
}

/// Stripping works from left to right: text without escape stays, a control
/// sequence goes as a whole, one that does not end goes up to the end, and of
/// a lone escape only the escape goes.
pub proof fn law_strip_parts(plain: Seq<char>, body: Seq<char>, last: char, rest: Seq<char>)
    requires
        forall|i: int| 0 <= i < plain.len() ==> #[trigger] plain[i] != '\u{1b}',
        forall|i: int| 0 <= i < body.len() ==> !('@' <= #[trigger] body[i] <= '~'),
    ensures
        without_ansi(plain + rest) == plain + without_ansi(rest),
        '@' <= last <= '~' ==> without_ansi(seq!['\u{1b}', '['] + body.push(last) + rest)
            == without_ansi(rest),
        without_ansi(seq!['\u{1b}', '['] + body) == Seq::<char>::empty(),
        rest.len() == 0 || rest[0] != '[' ==> without_ansi(seq!['\u{1b}'] + rest) == without_ansi(
            rest,
        ),
{
    lemma_plain_stays(plain, rest);
    let p = |c: char| ends_sequence(c);
    let open = seq!['\u{1b}', '['];
    if '@' <= last <= '~' {
        let s = open + body.push(last) + rest;
        let behind = body.push(last) + rest;
        assert(s.skip(2) =~= behind);
        assert forall|k: int| 0 <= k < body.len() implies !p(#[trigger] behind[k]) by {
            assert(behind[k] == body[k]);
        }
        assert(behind[body.len() as int] == last);
        lemma_index_where(behind, p, body.len());
        assert(behind.skip(body.len() as int + 1) =~= rest);
    }
    let cut = open + body;
    assert(cut.skip(2) =~= body);
    lemma_index_where(body, p, body.len());
    let lone = seq!['\u{1b}'] + rest;
    assert(lone.drop_first() =~= rest);
    if rest.len() > 0 {
        assert(lone[1] == rest[0]);
    }
}

proof fn lemma_plain_stays(plain: Seq<char>, rest: Seq<char>)
    requires
        forall|i: int| 0 <= i < plain.len() ==> #[trigger] plain[i] != '\u{1b}',
    ensures
        without_ansi(plain + rest) == plain + without_ansi(rest),
    decreases plain.len(),
{
    if plain.len() == 0 {
        assert(plain + rest =~= rest);
        assert(plain + without_ansi(rest) =~= without_ansi(rest));
    } else {
        let less = plain.drop_first();
        assert forall|i: int| 0 <= i < less.len() implies #[trigger] less[i] != '\u{1b}' by {
            assert(less[i] == plain[i + 1]);
        }
        lemma_plain_stays(less, rest);
        assert((plain + rest).drop_first() =~= less + rest);
        assert((plain + rest)[0] == plain[0]);
        assert(seq![plain[0]] + (less + without_ansi(rest)) =~= plain + without_ansi(rest));
    }
}

/// Joining keeps the parts in order, with one space wherever two of them meet.
pub proof fn law_spaced(a: Seq<Seq<char>>, b: Seq<Seq<char>>)
    requires
        a.len() > 0,
        b.len() > 0,
    ensures
        spaced(Seq::empty()) == Seq::<char>::empty(),
        spaced(seq![a[0]]) == a[0],
        spaced(a + b) == spaced(a) + seq![' '] + spaced(b),
    decreases b.len(),
{
    let all = a + b;
    assert(all.last() == b.last());
    if b.len() == 1 {
        assert(all.drop_last() =~= a);
        assert(spaced(all) =~= spaced(a) + seq![' '] + spaced(b));
    } else {
        law_spaced(a, b.drop_last());
        assert(all.drop_last() =~= a + b.drop_last());
        assert(spaced(all) =~= spaced(a) + seq![' '] + spaced(b));
    }
}

/// The texts behind strings are those of the strings, one by one.
pub proof fn law_texts(v: Seq<String>)
    ensures
        texts(v).len() == v.len(),
        forall|i: int| 0 <= i < v.len() ==> #[trigger] texts(v)[i] == v[i]@,
{
}

} // verus!
