//! What a `transcribe` process prints, and what it means.

use crate::text::{
    blank, index_where, is_blank, join_from, lemma_index_where, lines,
    spaced, split_lines, strip_ansi, substring, texts, to_chars, trim, trimmed, without_ansi,
};
use vstd::prelude::*;

verus! {

/// What a transcription printed. Times are decimal numerals in seconds, as
/// they stand in the log.
#[derive(Clone, Debug, PartialEq)]
pub struct TranscribeOutput {
    pub model_load_secs: Option<String>,
    pub transcribe_secs: Option<String>,
    pub text: String,
}

/// The text behind an optional string.
pub open spec fn opt_text(s: Option<String>) -> Option<Seq<char>> {
    match s {
        Some(t) => Some(t@),
        None => None,
    }
}

impl Default for TranscribeOutput {
    fn default() -> (r: Self)
        ensures
            r.model_load_secs is None,
            r.transcribe_secs is None,
            r.text@ == Seq::<char>::empty(),
    {
        TranscribeOutput { model_load_secs: None, transcribe_secs: None, text: String::new() }
    }
}

pub open spec fn is_digit(c: char) -> bool {
    '0' <= c <= '9'
}

/// Whether `c` can stand in a decimal numeral.
pub open spec fn in_numeral(c: char) -> bool {
    is_digit(c) || c == '.'
}

/// Whether `t` is a decimal numeral: digits, at least one, and at most one
/// point before, between or behind them.
pub open spec fn is_numeral(t: Seq<char>) -> bool {
    &&& forall|i: int| 0 <= i < t.len() ==> in_numeral(#[trigger] t[i])
    &&& exists|i: int| 0 <= i < t.len() && is_digit(#[trigger] t[i])
    &&& forall|i: int, j: int| 0 <= i < j < t.len() ==> !(#[trigger] t[i] == '.' && #[trigger] t[j] == '.')
}

/// Whether `marker` stands in `s` at position `at`.
pub open spec fn stands_at(s: Seq<char>, marker: Seq<char>, at: int) -> bool {
    0 <= at && at + marker.len() <= s.len() && s.subrange(at, at + marker.len()) == marker
}

/// Where `marker` first stands in `s`, looking from `from` on.
pub open spec fn find_from(s: Seq<char>, marker: Seq<char>, from: int) -> Option<int>
    decreases s.len() + 1 - from,
{
    if from > s.len() {
        None
    } else if stands_at(s, marker, from) {
        Some(from)
    } else {
        find_from(s, marker, from + 1)
    }
}

/// The longest stretch of digits and points at the start of `s`.
pub open spec fn numeral_run(s: Seq<char>) -> Seq<char> {
    s.take(index_where(s, |c: char| !in_numeral(c)) as int)
}

/// The decimal numeral behind the first `marker` in `line`, if both are there.
pub open spec fn secs_behind(line: Seq<char>, marker: Seq<char>) -> Option<Seq<char>> {
    match find_from(line, marker, 0) {
        Some(at) => {
            let run = numeral_run(line.skip(at + marker.len()));
            if is_numeral(run) {
                Some(run)
            } else {
                None
            }
        },
        None => None,
    }
}

/// The numeral behind `marker` in the last of the lines that has one.
pub open spec fn last_secs(lines: Seq<Seq<char>>, marker: Seq<char>) -> Option<Seq<char>>
    decreases lines.len(),
{
    if lines.len() == 0 {
        None
    } else {
        match secs_behind(lines.last(), marker) {
            Some(t) => Some(t),
            None => last_secs(lines.drop_last(), marker),
        }
    }
}

/// The position behind the last blank line, if there is one.
pub open spec fn behind_last_blank(lines: Seq<Seq<char>>) -> Option<nat>
    decreases lines.len(),
{
    if lines.len() == 0 {
        None
    } else if blank(lines.last()) {
        Some(lines.len())
    } else {
        behind_last_blank(lines.drop_last())
    }
}

/// The text after the final blank line, its lines joined to one; nothing where
/// no line is blank.
pub open spec fn transcript_of(lines: Seq<Seq<char>>) -> Seq<char> {
    match behind_last_blank(lines) {
        Some(from) => trimmed(spaced(lines.skip(from as int))),
        None => Seq::empty(),
    }
}

/// The lines of an output, without terminal control.
pub open spec fn plain_lines(stdout: Seq<char>) -> Seq<Seq<char>> {
    lines(stdout).map_values(|l: Seq<char>| without_ansi(l))
}

/// What the lines of an output say.
pub open spec fn reads(out: TranscribeOutput, lines: Seq<Seq<char>>) -> bool {
    &&& opt_text(out.model_load_secs) == last_secs(lines, "Model loaded in "@)
    &&& opt_text(out.transcribe_secs) == last_secs(lines, "Transcription completed in "@)
    &&& out.text@ == transcript_of(lines)
}

/// Whether the characters from `at` on start with `marker`.
fn starts_at(chars: &Vec<char>, marker: &Vec<char>, at: usize) -> (r: bool)
    requires
        at <= chars.len(),
    ensures
        r == stands_at(chars@, marker@, at as int),
{
    if chars.len() - at < marker.len() {
        return false;
    }
    let mut i: usize = 0;
    while i < marker.len()
        invariant
            i <= marker.len(),
            at + marker.len() <= chars.len(),
            forall|k: int| 0 <= k < i ==> chars[at + k] == marker[k],
        decreases marker.len() - i,
    {
        if chars[at + i] != marker[i] {
            proof {
                assert(chars@.subrange(at as int, at + marker.len())[i as int] != marker[i as int]);
            }
            return false;
        }
        i = i + 1;
    }
    proof {
        assert(chars@.subrange(at as int, at + marker.len()) =~= marker@);
    }
    true
}

/// Where `marker` first stands in `chars`.
fn find(chars: &Vec<char>, marker: &Vec<char>) -> (r: Option<usize>)
    ensures
        r is Some <==> find_from(chars@, marker@, 0) is Some,
        r matches Some(at) ==> Some(at as int) == find_from(chars@, marker@, 0) && stands_at(
            chars@,
            marker@,
            at as int,
        ),
{
    let mut at: usize = 0;
    while at < chars.len()
        invariant
            at <= chars.len(),
            find_from(chars@, marker@, 0) == find_from(chars@, marker@, at as int),
        decreases chars.len() - at,
    {
        if starts_at(chars, marker, at) {
            return Some(at);
        }
        at = at + 1;
    }
    if starts_at(chars, marker, at) {
        Some(at)
    } else {
        proof {
            assert(find_from(chars@, marker@, at + 1) is None);
        }
        None
    }
}

/// Whether the characters from `from` to `to` make a decimal numeral.
fn check_numeral(chars: &Vec<char>, from: usize, to: usize) -> (r: bool)
    requires
        from <= to <= chars.len(),
        forall|k: int| from <= k < to ==> in_numeral(#[trigger] chars[k]),
    ensures
        r == is_numeral(chars@.subrange(from as int, to as int)),
{
    let ghost t = chars@.subrange(from as int, to as int);
    let mut digit: bool = false;
    let mut point: Option<usize> = None;
    let mut i: usize = from;
    while i < to
        invariant
            from <= i <= to <= chars.len(),
            forall|k: int| from <= k < to ==> in_numeral(#[trigger] chars[k]),
            t == chars@.subrange(from as int, to as int),
            digit <==> exists|k: int| 0 <= k < i - from && is_digit(#[trigger] t[k]),
            point is None ==> forall|k: int| 0 <= k < i - from ==> #[trigger] t[k] != '.',
            point matches Some(p) ==> from <= p < i && t[p - from] == '.' && forall|k: int|
                0 <= k < i - from && k != p - from ==> #[trigger] t[k] != '.',
        decreases to - i,
    {
        assert(t[i - from] == chars[i as int]);
        if chars[i] == '.' {
            if let Some(p) = point {
                assert(t[p - from] == '.' && t[i - from] == '.');
                return false;
            }
            point = Some(i);
        } else {
            assert(is_digit(t[i - from]));
            digit = true;
        }
        i = i + 1;
    }
    proof {
        assert forall|k: int| 0 <= k < t.len() implies in_numeral(#[trigger] t[k]) by {
            assert(t[k] == chars[from + k]);
        }
    }
    digit
}

/// The decimal numeral behind the first `marker` in `line`, if both are there.
pub fn secs_after(line: &str, marker: &str) -> (r: Option<String>)
    ensures
        opt_text(r) == secs_behind(line@, marker@),
        r is Some <==> secs_behind(line@, marker@) is Some,
        r matches Some(t) ==> secs_behind(line@, marker@) == Some(t@),
        forall|a: Seq<char>, t: Seq<char>, b: Seq<char>|
            {
                &&& line@ == #[trigger] (a + marker@ + t + b)
                &&& forall|k: int|
                    0 <= k < a.len() ==> #[trigger] line@.subrange(k, k + marker@.len()) != marker@
                &&& is_numeral(t)
                &&& b.len() > 0 ==> !('0' <= b[0] <= '9') && b[0] != '.'
            } ==> r is Some && r->0@ == t,
{
    proof {
        assert forall|a: Seq<char>, t: Seq<char>, b: Seq<char>|
            {
                &&& line@ == #[trigger] (a + marker@ + t + b)
                &&& forall|k: int|
                    0 <= k < a.len() ==> #[trigger] line@.subrange(k, k + marker@.len()) != marker@
                &&& is_numeral(t)
                &&& b.len() > 0 ==> !('0' <= b[0] <= '9') && b[0] != '.'
            } implies secs_behind(line@, marker@) == Some(t) by {
            law_time_is_read_whole(a, marker@, t, b);
        }
    }
    let chars = to_chars(line);
    let wanted = to_chars(marker);
    match find(&chars, &wanted) {
        None => None,
        Some(at) => {
            assert(at + wanted.len() <= chars.len());
            let from: usize = at + wanted.len();
            let mut to: usize = from;
            while to < chars.len() && (('0' <= chars[to] && chars[to] <= '9') || chars[to] == '.')
                invariant
                    from <= to <= chars.len(),
                    forall|k: int| from <= k < to ==> in_numeral(#[trigger] chars[k]),
                decreases chars.len() - to,
            {
                to = to + 1;
            }
            proof {
                let rest = chars@.skip(from as int);
                lemma_index_where(rest, |c: char| !in_numeral(c), (to - from) as nat);
                assert(rest.take(to - from) =~= chars@.subrange(from as int, to as int));
            }
            if check_numeral(&chars, from, to) {
                Some(substring(&chars, from, to))
            } else {
                None
            }
        },
    }
}

/// What an output says, from its lines without terminal control.
pub fn parse_plain_lines(plain: &Vec<String>) -> (out: TranscribeOutput)
    ensures
        reads(out, texts(plain@)),
        opt_text(out.model_load_secs) == last_secs(texts(plain@), "Model loaded in "@),
        opt_text(out.transcribe_secs) == last_secs(texts(plain@), "Transcription completed in "@),
        out.text@ == transcript_of(texts(plain@)),
{
    let ghost all = texts(plain@);
    let mut out = TranscribeOutput::default();
    let mut from: Option<usize> = None;
    let mut i: usize = 0;
    proof {
        assert(all.take(0) =~= Seq::empty());
    }
    while i < plain.len()
        invariant
            i <= plain.len(),
            all == texts(plain@),
            opt_text(out.model_load_secs) == last_secs(all.take(i as int), "Model loaded in "@),
            opt_text(out.transcribe_secs) == last_secs(
                all.take(i as int),
                "Transcription completed in "@,
            ),
            out.text@ == Seq::<char>::empty(),
            from is Some <==> behind_last_blank(all.take(i as int)) is Some,
            from matches Some(b) ==> b <= i && behind_last_blank(all.take(i as int)) == Some(
                b as nat,
            ),
        decreases plain.len() - i,
    {
        let line = plain[i].as_str();
        proof {
            assert(all.take(i + 1).drop_last() =~= all.take(i as int));
            assert(all.take(i + 1).last() == line@);
        }
        let loaded = secs_after(line, "Model loaded in ");
        if loaded.is_some() {
            out.model_load_secs = loaded;
        }
        let completed = secs_after(line, "Transcription completed in ");
        if completed.is_some() {
            out.transcribe_secs = completed;
        }
        if is_blank(line) {
            from = Some(i + 1);
        }
        i = i + 1;
    }
    proof {
        assert(all.take(i as int) =~= all);
    }
    if let Some(b) = from {
        let joined = join_from(plain, b);
        out.text = trim(joined.as_str());
    }
    out
}

/// Parse what `transcribe` prints: timing comes from the "Model loaded in" and
/// "Transcription completed in" log lines, and the transcript is the text
/// after the final blank line.
pub fn parse_transcribe_output(stdout: &str) -> (out: TranscribeOutput)
    ensures
        reads(out, plain_lines(stdout@)),
        opt_text(out.model_load_secs) == last_secs(plain_lines(stdout@), "Model loaded in "@),
        opt_text(out.transcribe_secs) == last_secs(
            plain_lines(stdout@),
            "Transcription completed in "@,
        ),
        out.text@ == transcript_of(plain_lines(stdout@)),
{
    let raw = split_lines(stdout);
    let mut plain: Vec<String> = Vec::new();
    let mut i: usize = 0;
    while i < raw.len()
        invariant
            i <= raw.len(),
            texts(raw@) == lines(stdout@),
            plain.len() == i,
            forall|k: int| 0 <= k < i ==> (#[trigger] plain[k])@ == without_ansi(raw[k]@),
        decreases raw.len() - i,
    {
        let line = strip_ansi(raw[i].as_str());
        plain.push(line);
        i = i + 1;
    }
    proof {
        assert(texts(plain@) =~= plain_lines(stdout@)) by {
            assert forall|k: int| 0 <= k < plain.len() implies texts(plain@)[k] == plain_lines(
                stdout@,
            )[k] by {
                assert(texts(raw@)[k] == raw[k]@);
            }
        }
    }
    parse_plain_lines(&plain)
}

/// `find_from` finds the first place where `marker` stands, and finds one
/// where there is one.
pub proof fn law_find_is_first(s: Seq<char>, marker: Seq<char>, from: int)
    requires
        0 <= from,
    ensures
        find_from(s, marker, from) matches Some(at) ==> from <= at && stands_at(s, marker, at)
            && forall|k: int| from <= k < at ==> !#[trigger] stands_at(s, marker, k),
        find_from(s, marker, from) is None ==> forall|k: int|
            from <= k ==> !#[trigger] stands_at(s, marker, k),
    decreases s.len() + 1 - from,
{
    if from <= s.len() && !stands_at(s, marker, from) {
        law_find_is_first(s, marker, from + 1);
    }
}

/// A time that is reported is a decimal numeral.
pub proof fn law_times_are_numerals(lines: Seq<Seq<char>>, marker: Seq<char>)
    ensures
        last_secs(lines, marker) matches Some(t) ==> is_numeral(t),
    decreases lines.len(),
{
    if lines.len() > 0 {
        law_times_are_numerals(lines.drop_last(), marker);
    }
}

/// The time of the last line that has one is reported.
pub proof fn law_last_time_is_reported(
    before: Seq<Seq<char>>,
    line: Seq<char>,
    behind: Seq<Seq<char>>,
    marker: Seq<char>,
)
    requires
        secs_behind(line, marker) is Some,
        forall|i: int| 0 <= i < behind.len() ==> secs_behind(#[trigger] behind[i], marker) is None,
    ensures
        last_secs(before.push(line) + behind, marker) == secs_behind(line, marker),
    decreases behind.len(),
{
    let all = before.push(line) + behind;
    if behind.len() == 0 {
        assert(all.last() == line);
    } else {
        assert(all.last() == behind.last());
        assert(all.drop_last() =~= before.push(line) + behind.drop_last());
        law_last_time_is_reported(before, line, behind.drop_last(), marker);
    }
}

/// The transcript is the text after the final blank line.
pub proof fn law_transcript_follows_last_blank(
    before: Seq<Seq<char>>,
    line: Seq<char>,
    behind: Seq<Seq<char>>,
)
    requires
        blank(line),
        forall|i: int| 0 <= i < behind.len() ==> !blank(#[trigger] behind[i]),
    ensures
        transcript_of(before.push(line) + behind) == trimmed(spaced(behind)),
{
    let all = before.push(line) + behind;
    lemma_behind_last_blank(before, line, behind);
    assert(all.skip(before.len() as int + 1) =~= behind);
}

proof fn lemma_behind_last_blank(before: Seq<Seq<char>>, line: Seq<char>, behind: Seq<Seq<char>>)
    requires
        blank(line),
        forall|i: int| 0 <= i < behind.len() ==> !blank(#[trigger] behind[i]),
    ensures
        behind_last_blank(before.push(line) + behind) == Some((before.len() + 1) as nat),
    decreases behind.len(),
{
    let all = before.push(line) + behind;
    if behind.len() == 0 {
        assert(all.last() == line);
    } else {
        assert(all.last() == behind.last());
        assert(!blank(behind[behind.len() - 1]));
        assert(all.drop_last() =~= before.push(line) + behind.drop_last());
        lemma_behind_last_blank(before, line, behind.drop_last());
    }
}

/// Without a blank line there is no transcript.
pub proof fn law_no_blank_line_no_transcript(lines: Seq<Seq<char>>)
    requires
        forall|i: int| 0 <= i < lines.len() ==> !blank(#[trigger] lines[i]),
    ensures
        transcript_of(lines) == Seq::<char>::empty(),
    decreases lines.len(),
{
    if lines.len() > 0 {
        assert(!blank(lines[lines.len() - 1]));
        assert forall|i: int| 0 <= i < lines.drop_last().len() implies !blank(
            #[trigger] lines.drop_last()[i],
        ) by {
            assert(!blank(lines[i]));
        }
        law_no_blank_line_no_transcript(lines.drop_last());
        if behind_last_blank(lines.drop_last()) is Some {
            lemma_some_blank(lines.drop_last());
        }
    }
}

proof fn lemma_some_blank(lines: Seq<Seq<char>>)
    requires
        behind_last_blank(lines) is Some,
    ensures
        exists|i: int| 0 <= i < lines.len() && blank(#[trigger] lines[i]),
    decreases lines.len(),
{
    if lines.len() > 0 {
        if blank(lines.last()) {
            assert(blank(lines[lines.len() - 1]));
        } else {
            lemma_some_blank(lines.drop_last());
            let i = choose|i: int|
                0 <= i < lines.drop_last().len() && blank(#[trigger] lines.drop_last()[i]);
            assert(blank(lines[i]));
        }
    }
}

/// A decimal numeral is made of digits, at least one, or of digits, at least
/// one, and a point.
pub proof fn law_numeral(t: Seq<char>)
    ensures
        is_numeral(t) <==> {
            ||| t.len() > 0 && forall|i: int| 0 <= i < t.len() ==> '0' <= #[trigger] t[i] <= '9'
            ||| t.len() > 1 && exists|p: int|
                0 <= p < t.len() && #[trigger] t[p] == '.' && forall|i: int|
                    0 <= i < t.len() && i != p ==> '0' <= #[trigger] t[i] <= '9'
        },
{
    if is_numeral(t) {
        let d = choose|i: int| 0 <= i < t.len() && is_digit(#[trigger] t[i]);
        if exists|p: int| 0 <= p < t.len() && #[trigger] t[p] == '.' {
            let p = choose|p: int| 0 <= p < t.len() && #[trigger] t[p] == '.';
            assert forall|i: int| 0 <= i < t.len() && i != p implies '0' <= #[trigger] t[i]
                <= '9' by {
                assert(in_numeral(t[i]));
                assert(!(t[i] == '.' && t[p] == '.'));
            }
            assert(d != p);
        } else {
            assert forall|i: int| 0 <= i < t.len() implies '0' <= #[trigger] t[i] <= '9' by {
                assert(in_numeral(t[i]));
            }
        }
    } else if t.len() > 0 && forall|i: int| 0 <= i < t.len() ==> '0' <= #[trigger] t[i] <= '9' {
        assert(is_digit(t[0]));
        assert(is_numeral(t));
    } else if t.len() > 1 && exists|p: int|
        0 <= p < t.len() && #[trigger] t[p] == '.' && forall|i: int|
            0 <= i < t.len() && i != p ==> '0' <= #[trigger] t[i] <= '9' {
        let p = choose|p: int|
            0 <= p < t.len() && #[trigger] t[p] == '.' && forall|i: int|
                0 <= i < t.len() && i != p ==> '0' <= #[trigger] t[i] <= '9';
        let d: int = if p == 0 {
            1
        } else {
            0
        };
        assert(is_digit(t[d]));
        assert(is_numeral(t));
    }
}

/// Where a marker first stands in a line, the digits and points directly behind
/// it are read, all of them: as the time where they are a decimal numeral, and
/// as none where they are not.
pub proof fn law_run_is_read_whole(a: Seq<char>, marker: Seq<char>, t: Seq<char>, b: Seq<char>)
    requires
        forall|k: int|
            0 <= k < a.len() ==> #[trigger] (a + marker + t + b).subrange(k, k + marker.len())
                != marker,
        forall|i: int| 0 <= i < t.len() ==> ('0' <= #[trigger] t[i] <= '9') || t[i] == '.',
        b.len() > 0 ==> !('0' <= b[0] <= '9') && b[0] != '.',
    ensures
        is_numeral(t) ==> secs_behind(a + marker + t + b, marker) == Some(t),
        !is_numeral(t) ==> secs_behind(a + marker + t + b, marker) is None,
{
    let line = a + marker + t + b;
    let at = a.len() as int;
    let p = |c: char| !in_numeral(c);
    law_find_is_first(line, marker, 0);
    assert(line.subrange(at, at + marker.len()) =~= marker);
    assert(stands_at(line, marker, at));
    assert forall|k: int| 0 <= k < at implies !#[trigger] stands_at(line, marker, k) by {
        assert(line.subrange(k, k + marker.len()) != marker);
    }
    let rest = line.skip(at + marker.len());
    assert(rest =~= t + b);
    assert forall|k: int| 0 <= k < t.len() implies !p(#[trigger] rest[k]) by {
        assert(rest[k] == t[k]);
    }
    if b.len() > 0 {
        assert(rest[t.len() as int] == b[0]);
    }
    lemma_index_where(rest, p, t.len());
    assert(rest.take(t.len() as int) =~= t);
}

/// The time of a line is the decimal numeral directly behind the first place
/// where the marker stands, all of it.
pub proof fn law_time_is_read_whole(a: Seq<char>, marker: Seq<char>, t: Seq<char>, b: Seq<char>)
    requires
        forall|k: int|
            0 <= k < a.len() ==> #[trigger] (a + marker + t + b).subrange(k, k + marker.len())
                != marker,
        is_numeral(t),
        b.len() > 0 ==> !('0' <= b[0] <= '9') && b[0] != '.',
    ensures
        secs_behind(a + marker + t + b, marker) == Some(t),
{
    assert forall|i: int| 0 <= i < t.len() implies ('0' <= #[trigger] t[i] <= '9') || t[i]
        == '.' by {
        assert(in_numeral(t[i]));
    }
    law_run_is_read_whole(a, marker, t, b);
}

/// A line in which the marker stands nowhere has no time.
pub proof fn law_no_marker_no_time(line: Seq<char>, marker: Seq<char>)
    requires
        forall|k: int|
            0 <= k <= line.len() - marker.len() ==> #[trigger] line.subrange(k, k + marker.len())
                != marker,
    ensures
        secs_behind(line, marker) is None,
{
    law_find_is_first(line, marker, 0);
    if find_from(line, marker, 0) is Some {
        let at = find_from(line, marker, 0)->0;
        assert(line.subrange(at, at + marker.len()) == marker);
    }
}

/// Where no line has a time, none is reported.
pub proof fn law_no_line_no_time(lines: Seq<Seq<char>>, marker: Seq<char>)
    requires
        forall|i: int| 0 <= i < lines.len() ==> secs_behind(#[trigger] lines[i], marker) is None,
    ensures
        last_secs(lines, marker) is None,
    decreases lines.len(),
{
    if lines.len() > 0 {
        assert(secs_behind(lines[lines.len() - 1], marker) is None);
        assert forall|i: int| 0 <= i < lines.drop_last().len() implies secs_behind(
            #[trigger] lines.drop_last()[i],
            marker,
        ) is None by {
            assert(secs_behind(lines[i], marker) is None);
        }
        law_no_line_no_time(lines.drop_last(), marker);
    }
}

/// What is read are the lines of the output, each without terminal control.
pub proof fn law_plain_lines(stdout: Seq<char>)
    ensures
        plain_lines(stdout).len() == lines(stdout).len(),
        forall|i: int|
            0 <= i < lines(stdout).len() ==> #[trigger] plain_lines(stdout)[i] == without_ansi(
                lines(stdout)[i],
            ),
{
}

/// An output is read as the last load time, the last transcription time and the
/// transcript that its lines hold.
pub proof fn law_reads(out: TranscribeOutput, lines: Seq<Seq<char>>)
    requires
        reads(out, lines),
    ensures
        out.model_load_secs is Some <==> last_secs(lines, "Model loaded in "@) is Some,
        out.model_load_secs matches Some(t) ==> last_secs(lines, "Model loaded in "@) == Some(t@),
        out.transcribe_secs is Some <==> last_secs(lines, "Transcription completed in "@) is Some,
        out.transcribe_secs matches Some(t) ==> last_secs(lines, "Transcription completed in "@)
            == Some(t@),
        out.text@ == transcript_of(lines),
{
}

} // verus!
