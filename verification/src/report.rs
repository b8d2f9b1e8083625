//! What is told to the user: warnings, progress, and the table of results.

use crate::benchmark::Job;
use crate::output::opt_text;
use crate::text::{texts, to_chars};
use crate::variant::Variant;
use vstd::prelude::*;

verus! {

/// The warnings before a benchmark, in order.
pub open spec fn warnings(load: Option<Seq<char>>, daemon_running: bool) -> Seq<Seq<char>> {
    (match load {
        Some(w) => seq![w],
        None => Seq::empty(),
    }) + (if daemon_running {
        seq![
            "The voxtype daemon is running. It keeps a model loaded and competes for the same CPU and GPU, which can slow every variant down."@,
        ]
    } else {
        Seq::empty()
    })
}

/// The warnings before a benchmark: that of the system load, where there is
/// one, and one for a daemon that is running.
pub fn collect_warnings(load: Option<String>, daemon_running: bool) -> (r: Vec<String>)
    ensures
        texts(r@) == warnings(opt_text(load), daemon_running),
        load is Some && daemon_running ==> r.len() == 2,
        load is Some && !daemon_running ==> r.len() == 1,
        load is None && daemon_running ==> r.len() == 1,
        load is None && !daemon_running ==> r.len() == 0,
        load matches Some(w) ==> r[0]@ == w@,
        daemon_running ==> r@.last()@
            == "The voxtype daemon is running. It keeps a model loaded and competes for the same CPU and GPU, which can slow every variant down."@,
{
    let mut out: Vec<String> = Vec::new();
    if let Some(w) = load {
        out.push(w);
    }
    if daemon_running {
        out.push(
            "The voxtype daemon is running. It keeps a model loaded and competes for the same CPU and GPU, which can slow every variant down.".to_owned(),
        );
    }
    proof {
        assert(texts(out@) =~= warnings(opt_text(load), daemon_running));
    }
    out
}

/// The decimal digit of a number below ten.
pub open spec fn digit(n: nat) -> char {
    ('0' as u32 + n) as char
}

/// A number in decimal.
pub open spec fn decimal(n: nat) -> Seq<char>
    decreases n,
{
    if n < 10 {
        seq![digit(n)]
    } else {
        decimal(n / 10).push(digit(n % 10))
    }
}

/// Put `n` behind `line`, in decimal.
fn append_decimal(line: &mut String, n: usize)
    ensures
        final(line)@ == old(line)@ + decimal(n as nat),
    decreases n,
{
    let d: u8 = (n % 10) as u8;
    if n >= 10 {
        append_decimal(line, n / 10);
    }
    line.push((48 + d) as char);
    proof {
        assert(line@ =~= old(line)@ + decimal(n as nat));
    }
}

/// What is said where no installed build can run the engine.
pub fn no_candidates_message(lib_dir: &str, engine: &str) -> (r: String)
    ensures
        r@ == "No installed variant in "@ + lib_dir@ + " can run the "@ + engine@
            + " engine on this machine, so there is nothing to benchmark."@,
{
    let mut line = "No installed variant in ".to_owned();
    line.append(lib_dir);
    line.append(" can run the ");
    line.append(engine);
    line.append(" engine on this machine, so there is nothing to benchmark.");
    line
}

/// What is said before a run. Rounds are counted from one.
pub open spec fn progress(job: Job, runs: nat, display: Seq<char>) -> Seq<char> {
    match job.round {
        None => "  warm-up  "@ + display,
        Some(round) => "  run "@ + decimal((round + 1) as nat) + "/"@ + decimal(runs) + "  "@
            + display,
    }
}

/// What is said before a run.
pub fn progress_line(job: &Job, runs: usize, display: &str) -> (r: String)
    requires
        job.round matches Some(round) ==> round < runs,
    ensures
        r@ == progress(*job, runs as nat, display@),
        job.round is None ==> r@ == "  warm-up  "@ + display@,
        job.round matches Some(round) ==> r@ == "  run "@ + decimal((round + 1) as nat) + "/"@
            + decimal(runs as nat) + "  "@ + display@,
{
    match job.round {
        None => {
            let mut line = "  warm-up  ".to_owned();
            line.append(display);
            line
        },
        Some(round) => {
            let mut line = "  run ".to_owned();
            append_decimal(&mut line, round + 1);
            line.append("/");
            append_decimal(&mut line, runs);
            line.append("  ");
            line.append(display);
            line
        },
    }
}

/// So many spaces.
pub open spec fn spaces(n: int) -> Seq<char> {
    Seq::new(
        if n > 0 {
            n as nat
        } else {
            0
        },
        |i: int| ' ',
    )
}

/// `s`, filled up with spaces on its right to at least `width` characters.
pub open spec fn left_aligned(s: Seq<char>, width: int) -> Seq<char> {
    s + spaces(width - s.len())
}

/// `s`, filled up with spaces on its left to at least `width` characters.
pub open spec fn right_aligned(s: Seq<char>, width: int) -> Seq<char> {
    spaces(width - s.len()) + s
}

/// Put spaces behind `line`, as many as `s` is short of `width` characters.
fn fill(line: &mut String, s: &str, width: usize)
    ensures
        final(line)@ == old(line)@ + spaces(width - s@.len()),
{
    let mut len: usize = to_chars(s).len();
    let ghost start = line@;
    proof {
        assert(start + spaces(0) =~= start);
    }
    let ghost given = len as int;
    while len < width
        invariant
            given == s@.len(),
            given <= len,
            len <= width || len == given,
            line@ == start + spaces(len - given),
        decreases width - len,
    {
        proof {
            assert(start + spaces(len + 1 - given) =~= (start + spaces(len - given)).push(' '));
        }
        line.push(' ');
        len = len + 1;
    }
    proof {
        assert(spaces(len - given) =~= spaces(width - s@.len()));
    }
}

/// One build in the table of results. Figures are given as text; one that is
/// not known is left out.
#[derive(Clone, Debug)]
pub struct ReportRow {
    pub variant: Variant,
    pub transcribe: Option<String>,
    pub model_load: Option<String>,
    pub rt_factor: Option<String>,
    pub word_errors: Option<String>,
    pub error: Option<String>,
}

/// A figure, or a stand-in where it is not known.
pub open spec fn figure(s: Option<String>) -> Seq<char> {
    match s {
        Some(t) => t@,
        None => "n/a"@,
    }
}

/// Whether the build is the one that is recommended.
pub open spec fn is_variant(v: Variant, other: Option<Variant>) -> bool {
    other matches Some(o) && v.id == o.id
}

/// The line of the table with these five cells and this mark.
pub open spec fn cells(
    name: Seq<char>,
    a: Seq<char>,
    b: Seq<char>,
    c: Seq<char>,
    d: Seq<char>,
    mark: Seq<char>,
) -> Seq<char> {
    left_aligned(name, 22) + " "@ + right_aligned(a, 12) + " "@ + right_aligned(b, 11) + " "@
        + right_aligned(c, 10) + " "@ + right_aligned(d, 11) + mark
}

/// The line of one build.
pub open spec fn row_text(row: ReportRow, recommended: Option<Variant>) -> Seq<char> {
    match row.error {
        Some(e) => left_aligned(row.variant.display@, 22) + " failed: "@ + e@,
        None => cells(
            row.variant.display@,
            figure(row.transcribe),
            figure(row.model_load),
            figure(row.rt_factor),
            figure(row.word_errors),
            if is_variant(row.variant, recommended) {
                "  \u{2605}"@
            } else {
                ""@
            },
        ),
    }
}

/// The lines below the table.
pub open spec fn advice(recommended: Option<Variant>, active: Option<Variant>) -> Seq<Seq<char>> {
    match recommended {
        None => seq![
            "No variant produced a usable transcription, so there is no recommendation."@,
        ],
        Some(best) => seq![
            "Recommended on this machine: "@ + best.display@ + " ("@ + best.binary_name@ + ")"@,
            if is_variant(best, active) {
                "It is already the active variant."@
            } else {
                "Switch with: sudo voxtype setup variant --to "@ + best.binary_name@
            },
        ],
    }
}

/// All the lines of the report.
pub open spec fn report(
    rows: Seq<ReportRow>,
    recommended: Option<Variant>,
    active: Option<Variant>,
) -> Seq<Seq<char>> {
    seq![
        ""@,
        cells(
            "Variant"@,
            "Transcribe"@,
            "Model load"@,
            "RT factor"@,
            "Word errors"@,
            ""@,
        ),
    ] + rows.map_values(|row: ReportRow| row_text(row, recommended)) + seq![""@] + advice(
        recommended,
        active,
    )
}

fn format_cells(name: &str, a: &str, b: &str, c: &str, d: &str, mark: &str) -> (r: String)
    ensures
        r@ == cells(name@, a@, b@, c@, d@, mark@),
{
    let mut line = name.to_owned();
    fill(&mut line, name, 22);
    line.append(" ");
    let ghost l1 = line@;
    fill(&mut line, a, 12);
    line.append(a);
    assert(line@ =~= l1 + right_aligned(a@, 12));
    line.append(" ");
    let ghost l2 = line@;
    fill(&mut line, b, 11);
    line.append(b);
    assert(line@ =~= l2 + right_aligned(b@, 11));
    line.append(" ");
    let ghost l3 = line@;
    fill(&mut line, c, 10);
    line.append(c);
    assert(line@ =~= l3 + right_aligned(c@, 10));
    line.append(" ");
    let ghost l4 = line@;
    fill(&mut line, d, 11);
    line.append(d);
    assert(line@ =~= l4 + right_aligned(d@, 11));
    line.append(mark);
    line
}

fn figure_or_na(s: &Option<String>) -> (r: &str)
    ensures
        r@ == figure(*s),
{
    match s {
        Some(t) => t.as_str(),
        None => "n/a",
    }
}

fn matches_variant(v: &Variant, other: &Option<Variant>) -> (r: bool)
    ensures
        r == is_variant(*v, *other),
{
    match other {
        Some(o) => v.same(o),
        None => false,
    }
}

/// The line of one build: its figures, marked where it is recommended, or why
/// it failed.
pub fn row_line(row: &ReportRow, recommended: &Option<Variant>) -> (r: String)
    ensures
        r@ == row_text(*row, *recommended),
        row.error matches Some(e) ==> r@ == left_aligned(row.variant.display@, 22) + " failed: "@
            + e@,
        row.error is None ==> r@ == left_aligned(row.variant.display@, 22) + " "@ + right_aligned(
            figure(row.transcribe),
            12,
        ) + " "@ + right_aligned(figure(row.model_load), 11) + " "@ + right_aligned(
            figure(row.rt_factor),
            10,
        ) + " "@ + right_aligned(figure(row.word_errors), 11) + (if recommended is Some
            && recommended->0.id == row.variant.id {
            "  \u{2605}"@
        } else {
            ""@
        }),
{
    match &row.error {
        Some(e) => {
            let mut line = row.variant.display().to_owned();
            fill(&mut line, row.variant.display(), 22);
            line.append(" failed: ");
            line.append(e.as_str());
            line
        },
        None => {
            let mark: &str = if matches_variant(&row.variant, recommended) {
                "  \u{2605}"
            } else {
                ""
            };
            format_cells(
                row.variant.display(),
                figure_or_na(&row.transcribe),
                figure_or_na(&row.model_load),
                figure_or_na(&row.rt_factor),
                figure_or_na(&row.word_errors),
                mark,
            )
        },
    }
}

/// The lines of the report: the table of results, and what to do next.
pub fn report_lines(
    rows: &[ReportRow],
    recommended: Option<Variant>,
    active: Option<Variant>,
) -> (r: Vec<String>)
    ensures
        texts(r@) == report(rows@, recommended, active),
        r.len() == rows.len() + (if recommended is Some {
            5int
        } else {
            4int
        }),
        r[0]@ == ""@,
        r[1]@ == left_aligned("Variant"@, 22) + " "@ + right_aligned("Transcribe"@, 12) + " "@
            + right_aligned("Model load"@, 11) + " "@ + right_aligned("RT factor"@, 10) + " "@
            + right_aligned("Word errors"@, 11) + ""@,
        forall|i: int|
            0 <= i < rows.len() ==> #[trigger] r[2 + i]@ == row_text(rows[i], recommended),
        r[2 + rows.len()]@ == ""@,
        recommended is None ==> r[3 + rows.len()]@
            == "No variant produced a usable transcription, so there is no recommendation."@,
        recommended matches Some(best) ==> r[3 + rows.len()]@ == "Recommended on this machine: "@
            + best.display@ + " ("@ + best.binary_name@ + ")"@,
        recommended matches Some(best) ==> r[4 + rows.len()]@ == (if active is Some
            && active->0.id == best.id {
            "It is already the active variant."@
        } else {
            "Switch with: sudo voxtype setup variant --to "@ + best.binary_name@
        }),
{
    let ghost body = rows@.map_values(|row: ReportRow| row_text(row, recommended));
    let mut out: Vec<String> = Vec::new();
    out.push("".to_owned());
    out.push(
        format_cells("Variant", "Transcribe", "Model load", "RT factor", "Word errors", ""),
    );
    let ghost head = texts(out@);
    let mut i: usize = 0;
    proof {
        assert(texts(out@) =~= head + body.take(0));
    }
    while i < rows.len()
        invariant
            i <= rows.len(),
            body == rows@.map_values(|row: ReportRow| row_text(row, recommended)),
            texts(out@) == head + body.take(i as int),
        decreases rows.len() - i,
    {
        let ghost before = texts(out@);
        let line = row_line(&rows[i], &recommended);
        out.push(line);
        proof {
            assert(texts(out@) =~= before.push(line@));
            assert(texts(out@) =~= head + body.take(i + 1));
        }
        i = i + 1;
    }
    proof {
        assert(body.take(i as int) =~= body);
    }
    let ghost table = texts(out@);
    out.push("".to_owned());
    match recommended {
        None => {
            out.push(
                "No variant produced a usable transcription, so there is no recommendation.".to_owned(),
            );
        },
        Some(best) => {
            let mut line = "Recommended on this machine: ".to_owned();
            line.append(best.display());
            line.append(" (");
            line.append(best.binary_name());
            line.append(")");
            out.push(line);
            if matches_variant(&best, &active) {
                out.push("It is already the active variant.".to_owned());
            } else {
                let mut switch = "Switch with: sudo voxtype setup variant --to ".to_owned();
                switch.append(best.binary_name());
                out.push(switch);
            }
        },
    }
    proof {
        assert(texts(out@) =~= table + seq![""@] + advice(recommended, active));
        assert(texts(out@) =~= report(rows@, recommended, active));
        let all = texts(out@);
        let n = rows.len() as int;
        assert(all.len() == out.len());
        assert(body.len() == n);
        assert(head.len() == 2);
        assert(table.len() == n + 2);
        assert(out[0]@ == all[0] && all[0] == table[0] && table[0] == head[0]);
        assert(out[1]@ == all[1] && all[1] == table[1] && table[1] == head[1]);
        assert forall|i: int| 0 <= i < n implies #[trigger] out[2 + i]@ == row_text(
            rows[i],
            recommended,
        ) by {
            assert(out[2 + i]@ == all[2 + i]);
            assert(all[2 + i] == table[2 + i]);
            assert(table[2 + i] == body[i]);
        }
        assert(out[2 + n]@ == all[2 + n]);
        assert(out[3 + n]@ == all[3 + n]);
        if recommended is Some {
            assert(out[4 + n]@ == all[4 + n]);
        }
    }
    out
}

/// The number that a decimal numeral stands for.
pub open spec fn value(s: Seq<char>) -> int
    decreases s.len(),
{
    if s.len() == 0 {
        0
    } else {
        10 * value(s.drop_last()) + (s.last() as int - '0' as int)
    }
}

/// A number in decimal is made of digits, stands for the number, and has no zero
/// before its other digits.
pub proof fn law_decimal(n: nat)
    ensures
        value(decimal(n)) == n,
        decimal(n).len() > 0,
        forall|i: int| 0 <= i < decimal(n).len() ==> '0' <= #[trigger] decimal(n)[i] <= '9',
        decimal(n)[0] == '0' ==> n == 0,
        n == 0 ==> decimal(n) == seq!['0'],
    decreases n,
{
    if n < 10 {
        assert(decimal(n).drop_last() =~= Seq::empty());
        assert(value(Seq::empty()) == 0);
        assert(decimal(n).last() == digit(n));
    } else {
        law_decimal(n / 10);
        let less = decimal(n / 10);
        assert(decimal(n).drop_last() =~= less);
        assert(decimal(n).last() == digit(n % 10));
        assert(decimal(n)[0] == less[0]);
        assert forall|i: int| 0 <= i < decimal(n).len() implies '0' <= #[trigger] decimal(n)[i]
            <= '9' by {
            if i < less.len() {
                assert(decimal(n)[i] == less[i]);
            }
        }
    }
}

/// An aligned text is as long as its column, or as itself where it is longer; it
/// stands at its side of the column, and the rest is spaces.
pub proof fn law_aligned(s: Seq<char>, width: int)
    ensures
        s.len() >= width ==> left_aligned(s, width) == s && right_aligned(s, width) == s,
        s.len() < width ==> {
            &&& left_aligned(s, width).len() == width
            &&& right_aligned(s, width).len() == width
            &&& left_aligned(s, width).take(s.len() as int) == s
            &&& right_aligned(s, width).skip(width - s.len()) == s
            &&& forall|i: int| s.len() <= i < width ==> #[trigger] left_aligned(s, width)[i] == ' '
            &&& forall|i: int|
                0 <= i < width - s.len() ==> #[trigger] right_aligned(s, width)[i] == ' '
        },
{
    if s.len() >= width {
        assert(left_aligned(s, width) =~= s);
        assert(right_aligned(s, width) =~= s);
    } else {
        assert(left_aligned(s, width).take(s.len() as int) =~= s);
        assert(right_aligned(s, width).skip(width - s.len()) =~= s);
    }
}

/// The columns of the table stand below each other: in a line whose cells fit
/// in their columns, the name starts at the left, the figures end at the same
/// places in every line, the mark comes last, and the rest is spaces.
pub proof fn law_columns(
    name: Seq<char>,
    a: Seq<char>,
    b: Seq<char>,
    c: Seq<char>,
    d: Seq<char>,
    mark: Seq<char>,
)
    requires
        name.len() <= 22,
        a.len() <= 12,
        b.len() <= 11,
        c.len() <= 10,
        d.len() <= 11,
    ensures
        cells(name, a, b, c, d, mark).len() == 70 + mark.len(),
        cells(name, a, b, c, d, mark).take(name.len() as int) == name,
        cells(name, a, b, c, d, mark).subrange(35 - a.len(), 35) == a,
        cells(name, a, b, c, d, mark).subrange(47 - b.len(), 47) == b,
        cells(name, a, b, c, d, mark).subrange(58 - c.len(), 58) == c,
        cells(name, a, b, c, d, mark).subrange(70 - d.len(), 70) == d,
        cells(name, a, b, c, d, mark).skip(70) == mark,
        forall|i: int|
            name.len() <= i < 35 - a.len() || 35 <= i < 47 - b.len() || 47 <= i < 58 - c.len()
                || 58 <= i < 70 - d.len() ==> #[trigger] cells(name, a, b, c, d, mark)[i] == ' ',
{
    reveal_strlit(" ");
    let line = cells(name, a, b, c, d, mark);
    assert(line.take(name.len() as int) =~= name);
    assert(line.subrange(35 - a.len(), 35) =~= a);
    assert(line.subrange(47 - b.len(), 47) =~= b);
    assert(line.subrange(58 - c.len(), 58) =~= c);
    assert(line.subrange(70 - d.len(), 70) =~= d);
    assert(line.skip(70) =~= mark);
}

/// A cell holds its figure, or says that there is none.
pub proof fn law_figure(s: Option<String>)
    ensures
        s matches Some(t) ==> figure(s) == t@,
        s is None ==> figure(s) == "n/a"@,
{
}

/// A failed build is reported with its reason and no figures; another one with
/// its own figures, marked just where it is the recommended one.
pub proof fn law_row(row: ReportRow, recommended: Option<Variant>)
    ensures
        row.error matches Some(e) ==> row_text(row, recommended) == left_aligned(
            row.variant.display@,
            22,
        ) + " failed: "@ + e@,
        row.error is None && recommended is Some && recommended->0.id == row.variant.id
            ==> row_text(row, recommended) == cells(
            row.variant.display@,
            figure(row.transcribe),
            figure(row.model_load),
            figure(row.rt_factor),
            figure(row.word_errors),
            "  \u{2605}"@,
        ),
        row.error is None && (recommended is None || recommended->0.id != row.variant.id)
            ==> row_text(row, recommended) == cells(
            row.variant.display@,
            figure(row.transcribe),
            figure(row.model_load),
            figure(row.rt_factor),
            figure(row.word_errors),
            ""@,
        ),
{
}

} // verus!
