//! How a build is called to transcribe a recording, and what came of it.

use crate::output::{
    last_secs, opt_text, parse_transcribe_output, plain_lines, reads, transcript_of,
    TranscribeOutput,
};
use crate::text::{blank, is_blank, lines, split_lines, texts};
use vstd::prelude::*;
use vstd::utf8::{decode_utf8, valid_utf8};

verus! {

/// One argument of a build's command line.
#[derive(Clone, Copy, Debug, PartialEq, Eq)]
pub enum CommandArg {
    Word(&'static str),
    /// The path of the configuration file.
    ConfigPath,
    /// The path of the recording.
    WavPath,
}

/// The arguments that have a build transcribe a recording, with a
/// configuration file of its own or without.
pub open spec fn command_line(with_config: bool) -> Seq<CommandArg> {
    let transcribe = seq![CommandArg::Word("transcribe"), CommandArg::WavPath];
    if with_config {
        seq![CommandArg::Word("--config"), CommandArg::ConfigPath] + transcribe
    } else {
        transcribe
    }
}

/// The arguments that have a build transcribe a recording.
pub fn transcribe_args(with_config: bool) -> (r: Vec<CommandArg>)
    ensures
        r@ == command_line(with_config),
        with_config ==> r@ == seq![
            CommandArg::Word("--config"),
            CommandArg::ConfigPath,
            CommandArg::Word("transcribe"),
            CommandArg::WavPath,
        ],
        !with_config ==> r@ == seq![CommandArg::Word("transcribe"), CommandArg::WavPath],
{
    let mut args: Vec<CommandArg> = Vec::new();
    if with_config {
        args.push(CommandArg::Word("--config"));
        args.push(CommandArg::ConfigPath);
    }
    args.push(CommandArg::Word("transcribe"));
    args.push(CommandArg::WavPath);
    proof {
        assert(args@ =~= command_line(with_config));
    }
    args
}

/// `String::from_utf8_lossy` of bytes that are not UTF-8 throughout.
pub uninterp spec fn lossy_text(bytes: Seq<u8>) -> Seq<char>;

/// The text of some bytes, with stand-ins where they are not UTF-8.
pub open spec fn decoded(bytes: Seq<u8>) -> Seq<char> {
    if valid_utf8(bytes) {
        decode_utf8(bytes)
    } else {
        lossy_text(bytes)
    }
}

/// Trusted: `String::from_utf8_lossy` gives the text of bytes that are UTF-8.
/// Of others its result, with replacement characters in place of what is not
/// UTF-8, depends on the bytes alone.
#[verifier::external_body]
fn from_utf8_lossy(bytes: &[u8]) -> (r: String)
    ensures
        r@ == (if valid_utf8(bytes@) {
            decode_utf8(bytes@)
        } else {
            lossy_text(bytes@)
        }),
{
    String::from_utf8_lossy(bytes).into_owned()
}

/// The last of the lines that is not blank, if there is one.
pub open spec fn last_said(lines: Seq<Seq<char>>) -> Option<Seq<char>>
    decreases lines.len(),
{
    if lines.len() == 0 {
        None
    } else if !blank(lines.last()) {
        Some(lines.last())
    } else {
        last_said(lines.drop_last())
    }
}

/// What is said of a build that exited with `status` after writing `stderr`.
pub open spec fn failure(binary_name: Seq<char>, status: Seq<char>, stderr: Seq<char>) -> Seq<
    char,
> {
    binary_name + " exited with "@ + status + ": "@ + (match last_said(lines(stderr)) {
        Some(line) => line,
        None => "no error output"@,
    })
}

/// What is said of a build that failed: its name, its exit status, and the
/// last line that it wrote to its error output.
pub fn failure_message(binary_name: &str, status: &str, stderr: &str) -> (r: String)
    ensures
        r@ == failure(binary_name@, status@, stderr@),
        last_said(lines(stderr@)) matches Some(line) ==> r@ == binary_name@ + " exited with "@
            + status@ + ": "@ + line,
        last_said(lines(stderr@)) is None ==> r@ == binary_name@ + " exited with "@ + status@
            + ": "@ + "no error output"@,
{
    let all = split_lines(stderr);
    let mut message = binary_name.to_owned();
    message.append(" exited with ");
    message.append(status);
    message.append(": ");
    let ghost start = message@;
    let mut i: usize = all.len();
    proof {
        assert(texts(all@).take(i as int) =~= texts(all@));
    }
    while i > 0
        invariant
            i <= all.len(),
            texts(all@) == lines(stderr@),
            message@ == start,
            start == binary_name@ + " exited with "@ + status@ + ": "@,
            last_said(texts(all@).take(i as int)) == last_said(lines(stderr@)),
        decreases i,
    {
        let line = all[i - 1].as_str();
        proof {
            assert(texts(all@).take(i as int).last() == line@);
            assert(texts(all@).take(i as int).drop_last() =~= texts(all@).take(i - 1));
        }
        if !is_blank(line) {
            message.append(line);
            return message;
        }
        i = i - 1;
    }
    message.append("no error output");
    message
}

/// What came of a build that ran to its end: what its output says, or, where
/// it exited with a failure, what is to be said of that.
pub fn interpret_run(
    binary_name: &str,
    success: bool,
    status: &str,
    stdout: &[u8],
    stderr: &[u8],
) -> (r: Result<TranscribeOutput, String>)
    ensures
        r is Ok <==> success,
        r matches Ok(out) ==> reads(out, plain_lines(decoded(stdout@))),
        r matches Err(message) ==> message@ == failure(binary_name@, status@, decoded(stderr@)),
        r matches Ok(out) ==> {
            let said = plain_lines(
                if valid_utf8(stdout@) {
                    decode_utf8(stdout@)
                } else {
                    lossy_text(stdout@)
                },
            );
            &&& opt_text(out.model_load_secs) == last_secs(said, "Model loaded in "@)
            &&& opt_text(out.transcribe_secs) == last_secs(said, "Transcription completed in "@)
            &&& out.text@ == transcript_of(said)
        },
        r matches Err(message) ==> {
            let said = lines(
                if valid_utf8(stderr@) {
                    decode_utf8(stderr@)
                } else {
                    lossy_text(stderr@)
                },
            );
            message@ == binary_name@ + " exited with "@ + status@ + ": "@ + (if last_said(
                said,
            ) is Some {
                last_said(said)->0
            } else {
                "no error output"@
            })
        },
{
    if success {
        let text = from_utf8_lossy(stdout);
        Ok(parse_transcribe_output(text.as_str()))
    } else {
        let text = from_utf8_lossy(stderr);
        Err(failure_message(binary_name, status, text.as_str()))
    }
}

/// Only a line that says something is reported, and the last such line.
pub proof fn law_last_line_is_reported(
    before: Seq<Seq<char>>,
    line: Seq<char>,
    behind: Seq<Seq<char>>,
)
    requires
        !blank(line),
        forall|i: int| 0 <= i < behind.len() ==> blank(#[trigger] behind[i]),
    ensures
        last_said(before.push(line) + behind) == Some(line),
    decreases behind.len(),
{
    let all = before.push(line) + behind;
    if behind.len() == 0 {
        assert(all.last() == line);
    } else {
        assert(all.last() == behind.last());
        assert(blank(behind[behind.len() - 1]));
        assert(all.drop_last() =~= before.push(line) + behind.drop_last());
        law_last_line_is_reported(before, line, behind.drop_last());
    }
}

/// Where every line is blank, none is reported.
pub proof fn law_no_line_is_reported(lines: Seq<Seq<char>>)
    requires
        forall|i: int| 0 <= i < lines.len() ==> blank(#[trigger] lines[i]),
    ensures
        last_said(lines) is None,
    decreases lines.len(),
{
    if lines.len() > 0 {
        assert(blank(lines[lines.len() - 1]));
        assert forall|i: int| 0 <= i < lines.drop_last().len() implies blank(
            #[trigger] lines.drop_last()[i],
        ) by {
            assert(blank(lines[i]));
        }
        law_no_line_is_reported(lines.drop_last());
    }
}

/// What is said of a failed build starts with its name and its exit status, and
/// ends with what it said last.
pub proof fn law_failure(
    binary_name: Seq<char>,
    status: Seq<char>,
    stderr: Seq<char>,
    line: Seq<char>,
)
    ensures
        last_said(lines(stderr)) == Some(line) ==> failure(binary_name, status, stderr)
            == binary_name + " exited with "@ + status + ": "@ + line,
        last_said(lines(stderr)) is None ==> failure(binary_name, status, stderr) == binary_name
            + " exited with "@ + status + ": "@ + "no error output"@,
{
}

} // verus!
