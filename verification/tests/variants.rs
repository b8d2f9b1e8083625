use voxtype_benchmark::benchmark::{Benchmark, Job, Outcome, RunOutput, Stage};
use voxtype_benchmark::recommend::{best_rate, pick_recommendation};
use voxtype_benchmark::report::{
    collect_warnings, no_candidates_message, progress_line, report_lines, row_line, ReportRow,
};
use voxtype_benchmark::secs::Secs;
use voxtype_benchmark::variant::{candidates, Installed, Variant, VariantResult};
use voxtype_benchmark::words::WordErrorRate;

const WHISPER_NATIVE: Variant = Variant {
    id: 0,
    binary_name: "voxtype-native",
    display: "Whisper (native)",
};
const WHISPER_AVX2: Variant = Variant {
    id: 1,
    binary_name: "voxtype-avx2",
    display: "Whisper (AVX2)",
};
const WHISPER_VULKAN: Variant = Variant {
    id: 2,
    binary_name: "voxtype-vulkan",
    display: "Whisper (Vulkan)",
};

fn secs(x: f64) -> Secs {
    Secs { bits: x.to_bits() }
}

fn hundredths(errors: usize) -> Option<WordErrorRate> {
    Some(WordErrorRate { errors, words: 100 })
}

fn result(v: Variant, median: f64, wer: Option<WordErrorRate>) -> VariantResult {
    VariantResult {
        variant: v,
        binary_name: v.binary_name(),
        runs_secs: vec![secs(median)],
        median_secs: Some(secs(median)),
        model_load_secs: None,
        word_error_rate: wer,
        transcript: Some("text".to_string()),
        error: None,
    }
}

#[test]
fn a_fast_but_wrong_variant_is_not_recommended() {
    let results = vec![
        result(WHISPER_NATIVE, 1.3, hundredths(2)),
        result(WHISPER_VULKAN, 0.4, hundredths(60)),
    ];
    assert_eq!(pick_recommendation(&results), Some(WHISPER_NATIVE));
}

#[test]
fn a_faster_variant_within_tolerance_wins() {
    let results = vec![
        result(WHISPER_NATIVE, 1.3, hundredths(0)),
        result(WHISPER_VULKAN, 0.7, hundredths(4)),
    ];
    assert_eq!(pick_recommendation(&results), Some(WHISPER_VULKAN));
}

#[test]
fn failed_and_empty_variants_are_skipped() {
    let mut failed = result(WHISPER_VULKAN, 0.1, hundredths(0));
    failed.error = Some("exited with 1".to_string());
    let mut empty = result(WHISPER_AVX2, 0.2, None);
    empty.transcript = Some(String::new());
    let results = vec![failed, empty, result(WHISPER_NATIVE, 1.3, hundredths(0))];
    assert_eq!(pick_recommendation(&results), Some(WHISPER_NATIVE));
}

#[test]
fn without_a_reference_the_fastest_wins() {
    let results = vec![
        result(WHISPER_NATIVE, 1.3, None),
        result(WHISPER_VULKAN, 0.7, None),
    ];
    assert_eq!(pick_recommendation(&results), Some(WHISPER_VULKAN));
}

#[test]
fn the_tolerance_is_one_error_in_twenty_words() {
    let best = result(WHISPER_NATIVE, 1.3, Some(WordErrorRate { errors: 7, words: 40 }));
    let edge = result(WHISPER_VULKAN, 0.7, Some(WordErrorRate { errors: 9, words: 40 }));
    let over = result(WHISPER_AVX2, 0.7, Some(WordErrorRate { errors: 10, words: 40 }));
    assert_eq!(pick_recommendation(&[best.clone(), edge]), Some(WHISPER_VULKAN));
    assert_eq!(pick_recommendation(&[best, over]), Some(WHISPER_NATIVE));
}

#[test]
fn the_first_of_equally_fast_variants_wins() {
    let results = vec![
        result(WHISPER_AVX2, 0.7, None),
        result(WHISPER_VULKAN, 0.7, None),
        result(WHISPER_NATIVE, 0.7, None),
    ];
    assert_eq!(pick_recommendation(&results), Some(WHISPER_AVX2));
}

#[test]
fn an_unscored_variant_may_be_recommended() {
    let results = vec![
        result(WHISPER_NATIVE, 1.3, hundredths(0)),
        result(WHISPER_VULKAN, 0.7, None),
    ];
    assert_eq!(pick_recommendation(&results), Some(WHISPER_VULKAN));
}

#[test]
fn nothing_finished_nothing_recommended() {
    assert_eq!(pick_recommendation(&[]), None);
    let mut untimed = result(WHISPER_NATIVE, 1.0, hundredths(0));
    untimed.median_secs = None;
    let mut unheard = result(WHISPER_AVX2, 1.0, hundredths(0));
    unheard.transcript = None;
    assert_eq!(pick_recommendation(&[untimed, unheard]), None);
}

#[test]
fn rates_far_apart_in_size_are_compared_exactly() {
    let huge = WordErrorRate { errors: usize::MAX - 1, words: usize::MAX };
    let whole = WordErrorRate { errors: usize::MAX, words: usize::MAX };
    let results = vec![
        result(WHISPER_NATIVE, 1.0, Some(whole)),
        result(WHISPER_VULKAN, 2.0, Some(huge)),
    ];
    assert_eq!(best_rate(&results), Some(huge));
    assert_eq!(pick_recommendation(&results), Some(WHISPER_NATIVE));
}

fn installed(v: Variant, engines: &[&str], cpu: bool, gpu: bool) -> Installed {
    Installed {
        variant: v,
        engines: engines.iter().map(|e| e.to_string()).collect(),
        runs_on_cpu: cpu,
        gpu_available: gpu,
    }
}

#[test]
fn candidates_can_run_here() {
    let builds = vec![
        installed(WHISPER_VULKAN, &["whisper"], true, true),
        installed(WHISPER_AVX2, &["whisper"], false, true),
        installed(WHISPER_NATIVE, &["parakeet", "whisper"], true, true),
    ];
    assert_eq!(candidates("whisper", &builds), vec![WHISPER_VULKAN, WHISPER_NATIVE]);
    assert_eq!(candidates("parakeet", &builds), vec![WHISPER_NATIVE]);
    assert_eq!(candidates("moonshine", &builds), Vec::<Variant>::new());
    let no_gpu = vec![installed(WHISPER_VULKAN, &["whisper"], true, false)];
    assert_eq!(candidates("whisper", &no_gpu), Vec::<Variant>::new());
    assert!(builds[2].supports_engine("whisper"));
    assert!(!builds[0].supports_engine("parakeet"));
}

#[test]
fn variants_go_by_their_number() {
    assert!(WHISPER_AVX2.same(&WHISPER_AVX2));
    assert!(!WHISPER_AVX2.same(&WHISPER_VULKAN));
    assert_eq!(WHISPER_AVX2.display(), "Whisper (AVX2)");
}

fn heard(text: &str, secs_taken: Option<f64>, wall: f64, load: Option<f64>) -> Outcome {
    Outcome::Finished(RunOutput {
        transcribe_secs: secs_taken.map(secs),
        wall_secs: secs(wall),
        model_load_secs: load.map(secs),
        text: text.to_string(),
    })
}

#[test]
fn rounds_go_back_and_forth() {
    let variants = [WHISPER_NATIVE, WHISPER_AVX2, WHISPER_VULKAN];
    let mut b = Benchmark::new(&variants, 3, None);
    let mut jobs = Vec::new();
    while let Some(job) = b.next_job() {
        jobs.push((job.round, job.index));
        b.record(&job, heard("hi", Some(1.0), 2.0, None));
    }
    let expected = vec![
        (None, 0),
        (None, 1),
        (None, 2),
        (Some(0), 0),
        (Some(0), 1),
        (Some(0), 2),
        (Some(1), 2),
        (Some(1), 1),
        (Some(1), 0),
        (Some(2), 0),
        (Some(2), 1),
        (Some(2), 2),
    ];
    assert_eq!(jobs, expected);
    for r in &b.results {
        assert_eq!(r.runs_secs, vec![secs(1.0); 3]);
        assert_eq!(r.word_error_rate, None);
    }
}

#[test]
fn a_failed_variant_is_left_out() {
    let variants = [WHISPER_NATIVE, WHISPER_AVX2, WHISPER_VULKAN];
    let mut b = Benchmark::new(&variants, 2, None);
    let mut jobs = Vec::new();
    while let Some(job) = b.next_job() {
        jobs.push((job.round, job.index));
        let fails = job == Job { index: 1, round: None } || job == Job { index: 2, round: Some(0) };
        let outcome = if fails {
            Outcome::Failed(format!("run {} failed", jobs.len()))
        } else {
            heard("hi", None, 2.5, None)
        };
        b.record(&job, outcome);
    }
    let expected = vec![
        (None, 0),
        (None, 1),
        (None, 2),
        (Some(0), 0),
        (Some(0), 2),
        (Some(1), 0),
    ];
    assert_eq!(jobs, expected);
    assert_eq!(b.results[0].runs_secs, vec![secs(2.5); 2]);
    assert_eq!(b.results[1].error.as_deref(), Some("run 2 failed"));
    assert_eq!(b.results[2].error.as_deref(), Some("run 5 failed"));
    assert_eq!(b.results[2].runs_secs, Vec::<Secs>::new());
}

#[test]
fn runs_are_taken_down() {
    let mut b = Benchmark::new(&[WHISPER_NATIVE], 3, Some("one two".to_string()));
    let outcomes = vec![
        heard("warm-up", Some(9.0), 9.0, Some(9.0)),
        heard("one", Some(1.5), 4.0, None),
        heard("one two", None, 3.0, Some(0.25)),
        heard("ONE, three.", Some(1.25), 3.5, Some(0.5)),
    ];
    for outcome in outcomes {
        let job = b.next_job().unwrap();
        b.record(&job, outcome);
    }
    assert_eq!(b.next_job(), None);
    assert_eq!(b.stage, Stage::Round(2, 1));
    let r = &b.results[0];
    assert_eq!(r.runs_secs, vec![secs(1.5), secs(3.0), secs(1.25)]);
    assert_eq!(r.model_load_secs, Some(secs(0.25)));
    assert_eq!(r.transcript.as_deref(), Some("ONE, three."));
    assert_eq!(r.word_error_rate, Some(WordErrorRate { errors: 1, words: 2 }));
    assert_eq!(r.median_secs, None);
    assert_eq!(r.error, None);
}

#[test]
fn without_rounds_only_the_warm_up_runs() {
    let mut b = Benchmark::new(&[WHISPER_NATIVE], 0, None);
    let job = b.next_job().unwrap();
    assert_eq!(job, Job { index: 0, round: None });
    b.record(&job, heard("x", None, 1.0, None));
    assert_eq!(b.next_job(), None);
    assert_eq!(b.results[0].transcript, None);
    assert_eq!(Benchmark::new(&[], 5, None).next_job(), None);
}

#[test]
fn warnings_come_in_order() {
    let daemon = "The voxtype daemon is running. It keeps a model loaded and competes for the \
                  same CPU and GPU, which can slow every variant down.";
    assert_eq!(collect_warnings(None, false), Vec::<String>::new());
    assert_eq!(collect_warnings(None, true), vec![daemon]);
    assert_eq!(collect_warnings(Some("busy".to_string()), true), vec!["busy", daemon]);
}

fn row(v: Variant) -> ReportRow {
    ReportRow {
        variant: v,
        transcribe: Some("1.30s".to_string()),
        model_load: None,
        rt_factor: Some("0.27x".to_string()),
        word_errors: Some("2.0%".to_string()),
        error: None,
    }
}

#[test]
fn rows_line_up() {
    let r = row(WHISPER_NATIVE);
    assert_eq!(
        row_line(&r, &None),
        format!(
            "{:<22} {:>12} {:>11} {:>10} {:>11}",
            "Whisper (native)", "1.30s", "n/a", "0.27x", "2.0%"
        )
    );
    assert_eq!(
        row_line(&r, &Some(WHISPER_NATIVE)),
        format!(
            "{:<22} {:>12} {:>11} {:>10} {:>11}{}",
            "Whisper (native)", "1.30s", "n/a", "0.27x", "2.0%", "  ★"
        )
    );
    let mut failed = row(WHISPER_AVX2);
    failed.error = Some("exited with 1".to_string());
    assert_eq!(
        row_line(&failed, &Some(WHISPER_AVX2)),
        format!("{:<22} failed: {}", "Whisper (AVX2)", "exited with 1")
    );
    let long = Variant { id: 9, binary_name: "b", display: "é name of more than twenty-two" };
    let mut wide = row(long);
    wide.transcribe = Some("123456789012345s".to_string());
    assert_eq!(
        row_line(&wide, &None),
        format!(
            "{:<22} {:>12} {:>11} {:>10} {:>11}",
            long.display, "123456789012345s", "n/a", "0.27x", "2.0%"
        )
    );
}

#[test]
fn the_report_ends_with_advice() {
    let rows = vec![row(WHISPER_NATIVE), row(WHISPER_VULKAN)];
    let header = format!(
        "{:<22} {:>12} {:>11} {:>10} {:>11}",
        "Variant", "Transcribe", "Model load", "RT factor", "Word errors"
    );
    let best = Some(WHISPER_VULKAN);
    let lines = report_lines(&rows, best, Some(WHISPER_NATIVE));
    assert_eq!(
        lines,
        vec![
            "".to_string(),
            header.clone(),
            row_line(&rows[0], &best),
            row_line(&rows[1], &best),
            "".to_string(),
            "Recommended on this machine: Whisper (Vulkan) (voxtype-vulkan)".to_string(),
            "Switch with: sudo voxtype setup variant --to voxtype-vulkan".to_string(),
        ]
    );
    let active = report_lines(&rows, best, best);
    assert_eq!(active[6], "It is already the active variant.");
    assert_eq!(report_lines(&rows, best, None), lines);
    assert_eq!(
        report_lines(&[], None, best),
        vec![
            "".to_string(),
            header,
            "".to_string(),
            "No variant produced a usable transcription, so there is no recommendation."
                .to_string(),
        ]
    );
}

#[test]
fn progress_counts_rounds_from_one() {
    let name = WHISPER_AVX2.display();
    assert_eq!(
        progress_line(&Job { index: 1, round: None }, 3, name),
        "  warm-up  Whisper (AVX2)"
    );
    assert_eq!(
        progress_line(&Job { index: 1, round: Some(0) }, 3, name),
        "  run 1/3  Whisper (AVX2)"
    );
    for (round, runs) in [(8usize, 9usize), (9, 10), (99, 1234), (0, usize::MAX)] {
        assert_eq!(
            progress_line(&Job { index: 0, round: Some(round) }, runs, "x"),
            format!("  run {}/{}  {}", round + 1, runs, "x")
        );
    }
}

#[test]
fn nothing_to_benchmark_is_said_so() {
    assert_eq!(
        no_candidates_message("/usr/lib/voxtype", "whisper"),
        "No installed variant in /usr/lib/voxtype can run the whisper engine on this machine, \
         so there is nothing to benchmark."
    );
}

#[test]
fn the_conclusion_is_drawn_from_the_medians() {
    let variants = [WHISPER_NATIVE, WHISPER_AVX2, WHISPER_VULKAN];
    let mut b = Benchmark::new(&variants, 3, Some("one two".to_string()));
    let times = [[3.0, 1.0, 2.0], [0.1, 0.1, 0.1], [9.0, 1.0, 1.5]];
    while let Some(job) = b.next_job() {
        let outcome = match (job.index, job.round) {
            (1, Some(1)) => Outcome::Failed("crashed".to_string()),
            (i, Some(round)) => heard("one two", Some(times[i][round]), 10.0, None),
            (_, None) => heard("one two", None, 10.0, None),
        };
        b.record(&job, outcome);
    }
    let unused = secs(100.0);
    let (results, recommended) = b.conclude(&[unused, secs(0.25), unused]);
    assert_eq!(results[0].median_secs, Some(secs(2.0)));
    assert_eq!(results[1].median_secs, Some(secs(0.1)));
    assert_eq!(results[1].error.as_deref(), Some("crashed"));
    assert_eq!(results[2].median_secs, Some(secs(1.5)));
    assert_eq!(results[2].runs_secs, vec![secs(9.0), secs(1.0), secs(1.5)]);
    assert_eq!(recommended, Some(WHISPER_VULKAN));
}

#[test]
fn means_are_used_after_an_even_number_of_rounds() {
    let mut b = Benchmark::new(&[WHISPER_NATIVE, WHISPER_AVX2], 2, None);
    while let Some(job) = b.next_job() {
        let secs_taken = if job.index == 0 { 1.0 } else { 2.0 };
        b.record(&job, heard("hi", Some(secs_taken), 3.0, None));
    }
    let (results, recommended) = b.conclude(&[secs(1.0), secs(0.5)]);
    assert_eq!(results[0].median_secs, Some(secs(1.0)));
    assert_eq!(results[1].median_secs, Some(secs(0.5)));
    assert_eq!(recommended, Some(WHISPER_AVX2));
    let (none, nobody) = Benchmark::new(&[], 2, None).conclude(&[]);
    assert!(none.is_empty());
    assert_eq!(nobody, None);
}
