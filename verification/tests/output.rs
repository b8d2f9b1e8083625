use voxtype_benchmark::output::{
    parse_plain_lines, parse_transcribe_output, secs_after, TranscribeOutput,
};
use voxtype_benchmark::process::{
    failure_message, interpret_run, transcribe_args, CommandArg,
};

/// Captured from `voxtype-vulkan transcribe` 1.0.1, colour codes included.
const VULKAN_STDOUT: &str = "Loading audio file: \"speech_long.wav\"\n\
Audio format: 16000 Hz, 1 channel(s), Int\n\
Processing 76048 samples (4.75s)...\n\
\u{1b}[2m2026-09-14T09:47:02.928465Z\u{1b}[0m \u{1b}[32m INFO\u{1b}[0m Using local whisper transcription mode\n\
\u{1b}[2m2026-09-14T09:47:03.983799Z\u{1b}[0m \u{1b}[32m INFO\u{1b}[0m Model loaded in 1.05s\n\
\u{1b}[2m2026-09-14T09:47:05.211902Z\u{1b}[0m \u{1b}[32m INFO\u{1b}[0m Transcription completed in 1.23s: \"This is a longer test ...\"\n\
\n\
This is a longer test of voice activity detection with multiple words and phrases.\n";

fn number(t: &Option<String>) -> Option<f64> {
    t.as_ref().map(|s| s.parse().unwrap())
}

#[test]
fn parses_timing_and_transcript() {
    let out = parse_transcribe_output(VULKAN_STDOUT);
    assert_eq!(number(&out.model_load_secs), Some(1.05));
    assert_eq!(number(&out.transcribe_secs), Some(1.23));
    assert_eq!(
        out.text,
        "This is a longer test of voice activity detection with multiple words and phrases."
    );
}

#[test]
fn no_speech_output_has_no_transcript() {
    let out = parse_transcribe_output(
        "Loading audio file: \"x.wav\"\nVAD: 0.00s speech (0.0% of audio)\nNo speech detected, skipping transcription.\n",
    );
    assert_eq!(out.text, "");
    assert_eq!(out.transcribe_secs, None);
}

#[test]
fn numerals_are_those_that_parse() {
    for text in ["", ".", "1", "1.", ".5", "0.52", "1.2.3", "..", "007", "12345678901234567890.25"] {
        let line = format!("took {}s", text);
        let found = secs_after(&line, "took ");
        match text.parse::<f64>() {
            Ok(x) => assert_eq!(number(&found), Some(x)),
            Err(_) => assert_eq!(found, None),
        }
    }
}

#[test]
fn only_the_first_marker_counts() {
    assert_eq!(secs_after("in x in 2s", "in "), None);
    assert_eq!(secs_after("in 1s in 2s", "in "), Some("1".to_string()));
    assert_eq!(secs_after("in", "in "), None);
    assert_eq!(secs_after("ends in ", "in "), None);
}

#[test]
fn the_last_time_is_reported() {
    let out = parse_transcribe_output(
        "Model loaded in 1.0s\nModel loaded in 2.5s\nModel loaded in ...\nTranscription completed in 3s\n",
    );
    assert_eq!(out.model_load_secs.as_deref(), Some("2.5"));
    assert_eq!(out.transcribe_secs.as_deref(), Some("3"));
    assert_eq!(out.text, "");
}

#[test]
fn the_transcript_follows_the_last_blank_line() {
    let out = parse_transcribe_output("a\n\nb\r\n \t\n  first\n second \nthird\n");
    assert_eq!(out.text, "first  second  third");
    assert_eq!(parse_transcribe_output("text\n\n").text, "");
    assert_eq!(parse_transcribe_output("").text, "");
}

#[test]
fn a_line_of_colour_codes_is_blank() {
    assert_eq!(parse_transcribe_output("log\n\u{1b}[0m\nheard").text, "heard");
}

#[test]
fn plain_lines_are_taken_as_they_are() {
    let plain: Vec<String> = vec![
        "Model loaded in .5s".to_string(),
        "".to_string(),
        "hi".to_string(),
    ];
    assert_eq!(
        parse_plain_lines(&plain),
        TranscribeOutput {
            model_load_secs: Some(".5".to_string()),
            transcribe_secs: None,
            text: "hi".to_string(),
        }
    );
}

#[test]
fn the_default_output_is_empty() {
    let out = TranscribeOutput::default();
    assert_eq!(out.model_load_secs, None);
    assert_eq!(out.transcribe_secs, None);
    assert_eq!(out.text, "");
}

#[test]
fn arguments_of_the_command() {
    assert_eq!(
        transcribe_args(false),
        vec![CommandArg::Word("transcribe"), CommandArg::WavPath]
    );
    assert_eq!(
        transcribe_args(true),
        vec![
            CommandArg::Word("--config"),
            CommandArg::ConfigPath,
            CommandArg::Word("transcribe"),
            CommandArg::WavPath,
        ]
    );
}

#[test]
fn a_failure_reports_the_last_line() {
    assert_eq!(
        failure_message("voxtype-avx2", "exit status: 1", "one\ntwo \n\n  \n"),
        "voxtype-avx2 exited with exit status: 1: two "
    );
    assert_eq!(
        failure_message("voxtype-avx2", "signal: 4 (SIGILL)", " \n"),
        "voxtype-avx2 exited with signal: 4 (SIGILL): no error output"
    );
}

#[test]
fn output_bytes_are_decoded() {
    let ok = interpret_run("b", true, "exit status: 0", "\n\nhé".as_bytes(), b"ignored");
    assert_eq!(ok.unwrap().text, "hé");
    let lossy = interpret_run("b", true, "exit status: 0", b"\nh\xff!", b"");
    assert_eq!(lossy.unwrap().text, "h\u{fffd}!");
    let err = interpret_run("b", false, "exit status: 2", b"\nheard", b"bad \xff\xfe\n");
    assert_eq!(
        err.unwrap_err(),
        format!("b exited with exit status: 2: {}", String::from_utf8_lossy(b"bad \xff\xfe"))
    );
}
