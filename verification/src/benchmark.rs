//! The course of a benchmark: which build runs next, and what is kept of it.
//!
//! Every build is warmed up once, in order. Then come the timed rounds, which
//! go through the builds in turns forwards and backwards and leave out those
//! that have failed.

use crate::output::opt_text;
use crate::recommend::{eligible, finished, pick_recommendation, picked};
use crate::secs::{ascending, law_ascending, law_settled, settle, settled, Secs};
use crate::variant::{Variant, VariantResult};
use crate::distance::distance;
use crate::words::{rate, scored_words, word_error_rate};
use vstd::prelude::*;
use vstd::seq_lib::to_multiset_contains;

verus! {

/// What a run that succeeded has to say.
#[derive(Clone, Debug)]
pub struct RunOutput {
    /// The transcription time that the build reported.
    pub transcribe_secs: Option<Secs>,
    /// The time that the whole process took.
    pub wall_secs: Secs,
    /// The time to load the model that the build reported.
    pub model_load_secs: Option<Secs>,
    pub text: String,
}

/// How a run ended.
#[derive(Clone, Debug)]
pub enum Outcome {
    Finished(RunOutput),
    Failed(String),
}

/// A run to make: a build, by its place among the results, and the timed round
/// that the run belongs to. A warm-up belongs to none.
#[derive(Clone, Copy, Debug, PartialEq, Eq, Structural)]
pub struct Job {
    pub index: usize,
    pub round: Option<usize>,
}

/// How far a benchmark has come.
#[derive(Clone, Copy, Debug, PartialEq, Eq, Structural)]
pub enum Stage {
    /// So many builds are warmed up.
    WarmUp(usize),
    /// In this round, so many places are done.
    Round(usize, usize),
}

/// A benchmark under way.
#[derive(Clone, Debug)]
pub struct Benchmark {
    pub results: Vec<VariantResult>,
    /// How many timed rounds there are.
    pub runs: usize,
    /// The text that was read aloud, where it is known.
    pub reference: Option<String>,
    pub stage: Stage,
}

/// Which of `n` builds has its turn at place `step` of a round, and as well at
/// which place build `step` has its turn: even rounds go forwards, odd rounds
/// backwards.
pub open spec fn turn(n: int, round: int, step: int) -> int {
    if round % 2 == 1 {
        n - 1 - step
    } else {
        step
    }
}

/// Which builds have failed.
pub open spec fn failures(results: Seq<VariantResult>) -> Seq<bool> {
    results.map_values(|r: VariantResult| r.error is Some)
}

/// The first round and place, from the given ones on, at which a build that
/// has not failed has its turn.
pub open spec fn next_turn(failed: Seq<bool>, runs: int, round: int, step: int) -> Option<
    (int, int),
>
    decreases runs - round, failed.len() - step,
{
    if round >= runs {
        None
    } else if step >= failed.len() {
        next_turn(failed, runs, round + 1, 0)
    } else if failed[turn(failed.len() as int, round, step)] {
        next_turn(failed, runs, round, step + 1)
    } else {
        Some((round, step))
    }
}

/// How many timed runs of build `i` come before place `step` of `round`.
pub open spec fn turns_before(n: int, round: int, step: int, i: int) -> int {
    if turn(n, round, i) < step {
        round + 1
    } else {
        round
    }
}

/// What a run leaves in the result of its build.
pub open spec fn recorded(
    before: VariantResult,
    after: VariantResult,
    timed: bool,
    outcome: Outcome,
    reference: Option<String>,
) -> bool {
    &&& after.variant == before.variant
    &&& after.binary_name == before.binary_name
    &&& after.median_secs == before.median_secs
    &&& match outcome {
        Outcome::Failed(message) => {
            &&& opt_text(after.error) == Some(message@)
            &&& after.runs_secs@ == before.runs_secs@
            &&& after.model_load_secs == before.model_load_secs
            &&& after.word_error_rate == before.word_error_rate
            &&& opt_text(after.transcript) == opt_text(before.transcript)
        },
        Outcome::Finished(out) => if timed {
            &&& opt_text(after.error) == opt_text(before.error)
            &&& after.runs_secs@ == before.runs_secs@.push(
                match out.transcribe_secs {
                    Some(t) => t,
                    None => out.wall_secs,
                },
            )
            &&& after.model_load_secs == (if before.model_load_secs is None {
                out.model_load_secs
            } else {
                before.model_load_secs
            })
            &&& opt_text(after.transcript) == Some(out.text@)
            &&& match reference {
                Some(r) => {
                    &&& after.word_error_rate matches Some(w)
                    &&& (w.errors as nat, w.words as nat) == rate(r@, out.text@)
                    &&& w.wf()
                },
                None => after.word_error_rate is None,
            }
        } else {
            after == before
        },
    }
}

impl Benchmark {
    /// The first timed run from the given round and place on.
    pub open spec fn timed_job(self, round: int, step: int) -> Option<Job> {
        match next_turn(failures(self.results@), self.runs as int, round, step) {
            Some((r, s)) => Some(
                Job {
                    index: turn(self.results.len() as int, r, s) as usize,
                    round: Some(r as usize),
                },
            ),
            None => None,
        }
    }

    /// The run to make next: the warm-ups first, then the turns of the builds
    /// that have not failed.
    pub open spec fn upcoming(self) -> Option<Job> {
        match self.stage {
            Stage::WarmUp(k) => if k < self.results.len() {
                Some(Job { index: k, round: None })
            } else {
                self.timed_job(0, 0)
            },
            Stage::Round(round, step) => self.timed_job(round as int, step as int),
        }
    }

    /// How many timed runs of build `i` the stage has behind it.
    pub open spec fn turns_done(self, i: int) -> int {
        match self.stage {
            Stage::WarmUp(_) => 0,
            Stage::Round(round, step) => turns_before(
                self.results.len() as int,
                round as int,
                step as int,
                i,
            ),
        }
    }

    /// What holds of a result at every stage: its score is that of its
    /// transcript, which is that of its last timed run.
    pub open spec fn result_wf(self, r: VariantResult) -> bool {
        &&& r.wf()
        &&& r.median_secs is None
        &&& r.runs_secs.len() <= self.runs
        &&& r.transcript is Some <==> r.runs_secs.len() > 0
        &&& r.word_error_rate is Some <==> r.transcript is Some && self.reference is Some
        &&& r.word_error_rate matches Some(w) ==> (w.errors as nat, w.words as nat) == rate(
            self.reference->0@,
            r.transcript->0@,
        )
    }

    /// What holds of a benchmark at every stage: a build that has not failed
    /// has as many timings as it had turns, and no build fails before its
    /// warm-up.
    pub open spec fn wf(self) -> bool {
        &&& match self.stage {
            Stage::WarmUp(k) => k <= self.results.len(),
            Stage::Round(round, step) => round < self.runs && step <= self.results.len(),
        }
        &&& forall|i: int|
            0 <= i < self.results.len() ==> {
                &&& self.result_wf(#[trigger] self.results[i])
                &&& self.results[i].error is None ==> self.results[i].runs_secs.len()
                    == self.turns_done(i)
                &&& self.stage matches Stage::WarmUp(k) ==> (k <= i ==> self.results[i].error is None)
            }
    }

    /// How many warm-ups and turns the stage has behind it, those of failed
    /// builds counted too.
    pub open spec fn position(self) -> int {
        let n = self.results.len() as int;
        match self.stage {
            Stage::WarmUp(k) => k as int,
            Stage::Round(round, step) => n + round * n + step,
        }
    }

    /// A benchmark of the given builds, before its first run.
    pub fn new(variants: &[Variant], runs: usize, reference: Option<String>) -> (r: Self)
        ensures
            r.wf(),
            r.runs == runs,
            r.reference == reference,
            r.stage == Stage::WarmUp(0),
            r.results.len() == variants.len(),
            forall|i: int|
                0 <= i < variants.len() ==> {
                    let result = #[trigger] r.results[i];
                    &&& result.variant == variants[i]
                    &&& result.binary_name == variants[i].binary_name
                    &&& result.runs_secs@ == Seq::<Secs>::empty()
                    &&& result.median_secs is None
                    &&& result.model_load_secs is None
                    &&& result.word_error_rate is None
                    &&& result.transcript is None
                    &&& result.error is None
                },
    {
        let mut results: Vec<VariantResult> = Vec::new();
        let mut i: usize = 0;
        while i < variants.len()
            invariant
                i <= variants.len(),
                results.len() == i,
                forall|k: int|
                    0 <= k < i ==> {
                        let result = #[trigger] results[k];
                        &&& result.variant == variants[k]
                        &&& result.binary_name == variants[k].binary_name
                        &&& result.runs_secs@ == Seq::<Secs>::empty()
                        &&& result.median_secs is None
                        &&& result.model_load_secs is None
                        &&& result.word_error_rate is None
                        &&& result.transcript is None
                        &&& result.error is None
                    },
            decreases variants.len() - i,
        {
            let v = variants[i];
            let empty: Vec<Secs> = Vec::new();
            results.push(
                VariantResult {
                    variant: v,
                    binary_name: v.binary_name(),
                    runs_secs: empty,
                    median_secs: None,
                    model_load_secs: None,
                    word_error_rate: None,
                    transcript: None,
                    error: None,
                },
            );
            i = i + 1;
        }
        Benchmark { results, runs, reference, stage: Stage::WarmUp(0) }
    }

    /// The run to make next: the warm-ups first, then the turns of the builds
    /// that have not failed. `None` when the benchmark is over.
    pub fn next_job(&self) -> (r: Option<Job>)
        requires
            self.wf(),
        ensures
            r == self.upcoming(),
            self.stage matches Stage::WarmUp(k) ==> (k < self.results.len() ==> r == Some(
                Job { index: k, round: None },
            )),
            r matches Some(job) ==> {
                &&& job.index < self.results.len()
                &&& self.results[job.index as int].error is None
                &&& job.round matches Some(round) ==> round < self.runs
                &&& job.round is None ==> self.stage == Stage::WarmUp(job.index)
            },
            r is None ==> forall|i: int|
                0 <= i < self.results.len() && (#[trigger] self.results[i]).error is None
                    ==> self.results[i].runs_secs.len() == self.runs,
    {
        proof {
            lemma_upcoming(*self);
        }
        let n: usize = self.results.len();
        let ghost failed = failures(self.results@);
        let mut round: usize = 0;
        let mut step: usize = 0;
        match self.stage {
            Stage::WarmUp(k) => {
                if k < n {
                    return Some(Job { index: k, round: None });
                }
            },
            Stage::Round(r, s) => {
                round = r;
                step = s;
            },
        }
        while round < self.runs
            invariant
                n == self.results.len(),
                failed == failures(self.results@),
                step <= n,
                round <= self.runs,
                self.upcoming() == self.timed_job(round as int, step as int),
            decreases self.runs - round, n - step,
        {
            if step < n {
                let index: usize = if round % 2 == 1 {
                    n - 1 - step
                } else {
                    step
                };
                assert(failed[index as int] == (self.results[index as int].error is Some));
                if self.results[index].error.is_none() {
                    return Some(Job { index, round: Some(round) });
                }
                step = step + 1;
            } else {
                round = round + 1;
                step = 0;
            }
        }
        None
    }

    /// Take down how the run `job` ended, and go on behind it.
    pub fn record(&mut self, job: &Job, outcome: Outcome)
        requires
            old(self).wf(),
            old(self).upcoming() == Some(*job),
        ensures
            final(self).wf(),
            final(self).runs == old(self).runs,
            final(self).reference == old(self).reference,
            final(self).results.len() == old(self).results.len(),
            forall|i: int|
                0 <= i < old(self).results.len() && i != job.index ==> #[trigger] final(self).results[i] == old(self).results[i],
            recorded(
                old(self).results[job.index as int],
                final(self).results[job.index as int],
                job.round is Some,
                outcome,
                old(self).reference,
            ),
            final(self).stage == (match job.round {
                None => Stage::WarmUp((job.index + 1) as usize),
                Some(round) => Stage::Round(
                    round,
                    (turn(old(self).results.len() as int, round as int, job.index as int)
                        + 1) as usize,
                ),
            }),
            final(self).position() > old(self).position(),
            final(self).results[job.index as int].variant == old(self).results[job.index as int].variant,
            outcome matches Outcome::Finished(out) ==> (job.round is Some ==> {
                let before = old(self).results[job.index as int];
                let after = final(self).results[job.index as int];
                &&& after.runs_secs.len() == before.runs_secs.len() + 1
                &&& forall|k: int|
                    0 <= k < before.runs_secs.len() ==> #[trigger] after.runs_secs[k]
                        == before.runs_secs[k]
                &&& out.transcribe_secs matches Some(t) ==> after.runs_secs@.last() == t
                &&& out.transcribe_secs is None ==> after.runs_secs@.last() == out.wall_secs
                &&& before.model_load_secs is Some ==> after.model_load_secs
                    == before.model_load_secs
                &&& before.model_load_secs is None ==> after.model_load_secs == out.model_load_secs
                &&& after.transcript is Some
                &&& after.transcript->0@ == out.text@
                &&& after.error is None
                &&& after.median_secs is None
                &&& old(self).reference is None ==> after.word_error_rate is None
                &&& old(self).reference matches Some(r) ==> {
                    &&& after.word_error_rate is Some
                    &&& scored_words(r@).len() > 0 ==> {
                        &&& after.word_error_rate->0.words == scored_words(r@).len()
                        &&& after.word_error_rate->0.errors == distance(
                            scored_words(r@),
                            scored_words(out.text@),
                        )
                    }
                    &&& scored_words(r@).len() == 0 ==> {
                        &&& after.word_error_rate->0.words == 1
                        &&& after.word_error_rate->0.errors == (if scored_words(out.text@).len()
                            == 0 {
                            0int
                        } else {
                            1int
                        })
                    }
                }
            }),
            outcome matches Outcome::Finished(_) ==> (job.round is None ==> final(self).results[job.index as int] == old(self).results[job.index as int]),
            outcome matches Outcome::Failed(message) ==> {
                let before = old(self).results[job.index as int];
                let after = final(self).results[job.index as int];
                &&& after.error is Some
                &&& after.error->0@ == message@
                &&& after.runs_secs@ == before.runs_secs@
                &&& after.median_secs == before.median_secs
                &&& after.model_load_secs == before.model_load_secs
                &&& after.word_error_rate == before.word_error_rate
                &&& after.transcript is Some <==> before.transcript is Some
                &&& after.transcript is Some ==> after.transcript->0@ == before.transcript->0@
            },
            job.round is None ==> final(self).stage == Stage::WarmUp((job.index + 1) as usize),
            job.round matches Some(round) ==> (round % 2 == 0 ==> final(self).stage
                == Stage::Round(round, (job.index + 1) as usize)),
            job.round matches Some(round) ==> (round % 2 == 1 ==> final(self).stage
                == Stage::Round(round, (old(self).results.len() - job.index) as usize)),
    {
        let n: usize = self.results.len();
        let index: usize = job.index;
        proof {
            lemma_upcoming(*self);
        }
        let timed: bool = job.round.is_some();
        match outcome {
            Outcome::Failed(message) => {
                let result = &mut self.results[index];
                result.error = Some(message);
            },
            Outcome::Finished(out) => {
                if timed {
                    let scored = match &self.reference {
                        Some(r) => Some(word_error_rate(r.as_str(), out.text.as_str())),
                        None => None,
                    };
                    let secs = match out.transcribe_secs {
                        Some(t) => t,
                        None => out.wall_secs,
                    };
                    let result = &mut self.results[index];
                    result.runs_secs.push(secs);
                    if result.model_load_secs.is_none() {
                        result.model_load_secs = out.model_load_secs;
                    }
                    result.word_error_rate = scored;
                    result.transcript = Some(out.text);
                }
            },
        }
        match job.round {
            None => {
                self.stage = Stage::WarmUp(index + 1);
            },
            Some(round) => {
                let step: usize = if round % 2 == 1 {
                    n - 1 - index
                } else {
                    index
                };
                self.stage = Stage::Round(round, step + 1);
            },
        }
        proof {
            lemma_recorded_wf(*old(self), *self, *job, outcome);
        }
    }

    /// The results with the median of each build's times, and the build that
    /// they recommend. `means` holds, for each build, the mean of the middle
    /// two of its times, which counts where their number is even.
    pub fn conclude(self, means: &[Secs]) -> (r: (Vec<VariantResult>, Option<Variant>))
        requires
            self.wf(),
            means.len() == self.results.len(),
        ensures
            r.0.len() == self.results.len(),
            forall|i: int|
                0 <= i < r.0.len() ==> #[trigger] r.0[i] == (VariantResult {
                    median_secs: settled(self.results[i].runs_secs@, means[i]),
                    ..self.results[i]
                }),
            r.1 is None ==> forall|i: int| !#[trigger] eligible(r.0@, i),
            r.1 matches Some(v) ==> exists|i: int|
                #[trigger] picked(r.0@, i) && v == r.0[i].variant,
            forall|i: int|
                0 <= i < r.0.len() ==> {
                    let n = self.results[i].runs_secs@.len();
                    &&& (#[trigger] r.0[i]).median_secs is None <==> n == 0
                    &&& n > 0 && n % 2 == 0 ==> r.0[i].median_secs == Some(means[i])
                    &&& n % 2 == 1 ==> exists|k: int|
                        0 <= k < n && k == n - 1 - k && Some(
                            #[trigger] ascending(self.results[i].runs_secs@)[k],
                        ) == r.0[i].median_secs
                },
            r.1 matches Some(v) ==> exists|i: int|
                {
                    &&& #[trigger] picked(r.0@, i)
                    &&& 0 <= i < r.0.len()
                    &&& v == r.0[i].variant
                    &&& r.0[i].error is None
                    &&& r.0[i].median_secs is Some
                    &&& r.0[i].transcript is Some
                    &&& r.0[i].transcript->0@.len() > 0
                    &&& forall|j: int|
                        #![trigger r.0[j]]
                        0 <= j < r.0.len() && r.0[j].error is None && r.0[j].median_secs is Some
                            && r.0[j].transcript is Some && r.0[j].transcript->0@.len() > 0
                            && r.0[j].word_error_rate is Some && r.0[i].word_error_rate is Some
                            ==> 20 * (r.0[i].word_error_rate->0.errors
                            * r.0[j].word_error_rate->0.words) <= 20 * (
                        r.0[j].word_error_rate->0.errors * r.0[i].word_error_rate->0.words)
                            + r.0[j].word_error_rate->0.words * r.0[i].word_error_rate->0.words
                },
            r.1 is None <==> forall|i: int|
                #![trigger r.0[i]]
                0 <= i < r.0.len() ==> r.0[i].error is Some || r.0[i].median_secs is None
                    || r.0[i].transcript is None || r.0[i].transcript->0@.len() == 0,
    {
        let ghost given = self.results@;
        let mut results = self.results;
        let mut i: usize = 0;
        while i < results.len()
            invariant
                i <= results.len() == given.len() == means.len(),
                forall|k: int|
                    0 <= k < i ==> #[trigger] results[k] == (VariantResult {
                        median_secs: settled(given[k].runs_secs@, means[k]),
                        ..given[k]
                    }),
                forall|k: int| i <= k < given.len() ==> #[trigger] results[k] == given[k],
            decreases results.len() - i,
        {
            let settled_secs = settle(results[i].runs_secs.as_slice(), means[i]);
            let result = &mut results[i];
            result.median_secs = settled_secs;
            i = i + 1;
        }
        proof {
            assert forall|k: int| 0 <= k < results.len() implies (#[trigger] results[k]).wf() by {
                assert(self.result_wf(self.results[k]));
            }
            assert forall|k: int| 0 <= k < results.len() implies {
                let n = given[k].runs_secs@.len();
                &&& (#[trigger] results[k]).median_secs is None <==> n == 0
                &&& n > 0 && n % 2 == 0 ==> results[k].median_secs == Some(means[k])
                &&& n % 2 == 1 ==> exists|m: int|
                    0 <= m < n && m == n - 1 - m && Some(
                        #[trigger] ascending(given[k].runs_secs@)[m],
                    ) == results[k].median_secs
            } by {
                law_settled(given[k].runs_secs@, means[k]);
            }
        }
        let recommended = pick_recommendation(results.as_slice());
        (results, recommended)
    }
}

proof fn lemma_next_turn(failed: Seq<bool>, runs: int, round: int, step: int)
    requires
        0 <= round <= runs,
        0 <= step <= failed.len(),
        round < runs || step == 0,
    ensures
        next_turn(failed, runs, round, step) matches Some((r, s)) ==> {
            &&& round <= r < runs
            &&& 0 <= s < failed.len()
            &&& r > round || s >= step
            &&& !failed[turn(failed.len() as int, r, s)]
            &&& forall|i: int|
                0 <= i < failed.len() && !#[trigger] failed[i] ==> turns_before(
                    failed.len() as int,
                    r,
                    s,
                    i,
                ) == turns_before(failed.len() as int, round, step, i)
        },
        next_turn(failed, runs, round, step) is None ==> forall|i: int|
            0 <= i < failed.len() && !#[trigger] failed[i] ==> turns_before(
                failed.len() as int,
                round,
                step,
                i,
            ) == runs,
    decreases runs - round, failed.len() - step,
{
    if round >= runs {
    } else if step >= failed.len() {
        lemma_next_turn(failed, runs, round + 1, 0);
    } else if failed[turn(failed.len() as int, round, step)] {
        lemma_next_turn(failed, runs, round, step + 1);
    }
}

/// What holds of the run to make next.
proof fn lemma_upcoming(b: Benchmark)
    requires
        b.wf(),
    ensures
        b.upcoming() matches Some(job) ==> {
            let n = b.results.len() as int;
            &&& job.index < n
            &&& job.round is None <==> (b.stage matches Stage::WarmUp(k) && k < n)
            &&& job.round is None ==> b.stage == Stage::WarmUp(job.index)
            &&& b.results[job.index as int].error is None
            &&& job.round matches Some(round) ==> {
                let step = turn(n, round as int, job.index as int);
                &&& round < b.runs
                &&& b.stage matches Stage::Round(r, s) ==> r < round || (r == round && s <= step)
                &&& forall|i: int|
                    0 <= i < n && (#[trigger] b.results[i]).error is None ==> turns_before(
                        n,
                        round as int,
                        step,
                        i,
                    ) == b.turns_done(i)
            }
        },
        b.upcoming() is None ==> forall|i: int|
            0 <= i < b.results.len() && (#[trigger] b.results[i]).error is None
                ==> b.results[i].runs_secs.len() == b.runs,
{
    let failed = failures(b.results@);
    let n = b.results.len() as int;
    let from: (int, int) = match b.stage {
        Stage::WarmUp(_) => (0, 0),
        Stage::Round(round, step) => (round as int, step as int),
    };
    lemma_next_turn(failed, b.runs as int, from.0, from.1);
    assert forall|i: int| 0 <= i < n implies #[trigger] failed[i] == (b.results[i].error
        is Some) by {}
    assert forall|i: int| 0 <= i < n && (#[trigger] b.results[i]).error is None implies !failed[i]
        && turns_before(n, from.0, from.1, i) == b.turns_done(i) by {
        assert(failed[i] == (b.results[i].error is Some));
    }
}

/// The invariant outlives the taking down of a run.
proof fn lemma_recorded_wf(before: Benchmark, after: Benchmark, job: Job, outcome: Outcome)
    requires
        before.wf(),
        before.upcoming() == Some(job),
        after.runs == before.runs,
        after.reference == before.reference,
        after.results.len() == before.results.len(),
        forall|i: int|
            0 <= i < before.results.len() && i != job.index ==> #[trigger] after.results[i]
                == before.results[i],
        recorded(
            before.results[job.index as int],
            after.results[job.index as int],
            job.round is Some,
            outcome,
            before.reference,
        ),
        after.stage == (match job.round {
            None => Stage::WarmUp((job.index + 1) as usize),
            Some(round) => Stage::Round(
                round,
                (turn(before.results.len() as int, round as int, job.index as int) + 1) as usize,
            ),
        }),
    ensures
        after.wf(),
        after.position() > before.position(),
{
    lemma_upcoming(before);
    let n = before.results.len() as int;
    let x = job.index as int;
    assert(before.result_wf(before.results[x]));
    assert forall|i: int| 0 <= i < n implies {
        &&& after.result_wf(#[trigger] after.results[i])
        &&& after.results[i].error is None ==> after.results[i].runs_secs.len()
            == after.turns_done(i)
        &&& after.stage matches Stage::WarmUp(k) ==> (k <= i ==> after.results[i].error is None)
    } by {
        assert(before.result_wf(before.results[i]));
        if i != x {
            assert(after.results[i] == before.results[i]);
        }
    }
    if let Some(round) = job.round {
        match before.stage {
            Stage::WarmUp(_) => {
                assert(round * n >= 0) by (nonlinear_arith)
                    requires
                        round >= 0,
                        n >= 0,
                ;
            },
            Stage::Round(r, _) => {
                if r < round {
                    assert(round * n >= r * n + n) by (nonlinear_arith)
                        requires
                            round >= r + 1,
                            n >= 0,
                    ;
                }
            },
        }
    }
}

/// The rounds take turns in going forwards and backwards: each visits the
/// builds in the opposite order of the one before.
pub proof fn law_rounds_alternate(n: int, round: int, step: int)
    requires
        0 <= round,
    ensures
        turn(n, round + 1, step) == turn(n, round, n - 1 - step),
{
}

/// A round visits each build at one place.
pub proof fn law_round_visits_each_once(n: int, round: int, step: int, other: int)
    requires
        0 <= step < n,
        0 <= other < n,
    ensures
        0 <= turn(n, round, step) < n,
        turn(n, round, turn(n, round, step)) == step,
        turn(n, round, step) == turn(n, round, other) ==> step == other,
{
}

/// The warm-ups come first: one of each build, in order, before any timed run.
pub proof fn law_warm_ups_come_first(b: Benchmark)
    requires
        b.wf(),
    ensures
        b.stage matches Stage::WarmUp(k) ==> (k < b.results.len() ==> b.upcoming() == Some(
            Job { index: k, round: None },
        )),
        b.upcoming() matches Some(job) ==> (job.round is Some ==> (
        b.stage matches Stage::WarmUp(k) ==> k == b.results.len())),
        b.upcoming() matches Some(job) ==> (job.round is None ==> b.stage == Stage::WarmUp(
            job.index,
        )),
{
    lemma_upcoming(b);
}

/// A build that has failed is not run again.
pub proof fn law_failed_is_not_run(b: Benchmark)
    requires
        b.wf(),
    ensures
        b.upcoming() matches Some(job) ==> job.index < b.results.len()
            && b.results[job.index as int].error is None,
{
    lemma_upcoming(b);
}

/// While no build has failed, no turn is left out.
pub proof fn law_no_turn_is_left_out(b: Benchmark)
    requires
        b.wf(),
        b.results.len() > 0,
        forall|i: int| 0 <= i < b.results.len() ==> (#[trigger] b.results[i]).error is None,
    ensures
        b.stage matches Stage::Round(r, s) ==> (s < b.results.len() ==> b.upcoming() == Some(
            Job {
                index: turn(b.results.len() as int, r as int, s as int) as usize,
                round: Some(r),
            },
        )),
        b.stage matches Stage::Round(r, s) ==> (s == b.results.len() ==> b.upcoming() == (if r + 1
            < b.runs {
            Some(
                Job {
                    index: turn(b.results.len() as int, r + 1, 0) as usize,
                    round: Some((r + 1) as usize),
                },
            )
        } else {
            None
        })),
        b.stage matches Stage::WarmUp(k) ==> (k == b.results.len() ==> b.upcoming() == (if b.runs
            > 0 {
            Some(Job { index: 0, round: Some(0) })
        } else {
            None
        })),
{
    let failed = failures(b.results@);
    let n = b.results.len() as int;
    assert forall|i: int| 0 <= i < n implies !#[trigger] failed[i] by {
        assert(b.results[i].error is None);
    }
    reveal_with_fuel(next_turn, 2);
    if let Stage::Round(r, s) = b.stage {
        assert(!failed[turn(n, r as int, 0)]);
        assert(!failed[turn(n, r + 1, 0)]);
        if s < n {
            assert(!failed[turn(n, r as int, s as int)]);
        }
    } else {
        assert(!failed[turn(n, 0, 0)]);
    }
}

/// When the benchmark is over, every build that has not failed was timed once
/// in each round.
pub proof fn law_every_round_is_timed(b: Benchmark)
    requires
        b.wf(),
        b.upcoming() is None,
    ensures
        forall|i: int|
            0 <= i < b.results.len() && (#[trigger] b.results[i]).error is None
                ==> b.results[i].runs_secs.len() == b.runs,
{
    lemma_upcoming(b);
}

/// When the benchmark is over after at least one round, every build that has
/// not failed has a median, which with an odd number of rounds is one of its
/// own times; it has then finished if it heard something.
pub proof fn law_every_build_has_a_median(b: Benchmark, i: int, mean: Secs)
    requires
        b.wf(),
        b.upcoming() is None,
        b.runs > 0,
        0 <= i < b.results.len(),
        b.results[i].error is None,
    ensures
        settled(b.results[i].runs_secs@, mean) is Some,
        b.runs % 2 == 1 ==> b.results[i].runs_secs@.contains(
            settled(b.results[i].runs_secs@, mean)->0,
        ),
        b.results[i].transcript matches Some(t) && (t@.len() > 0 ==> finished(
            VariantResult {
                median_secs: settled(b.results[i].runs_secs@, mean),
                ..b.results[i]
            },
        )),
{
    lemma_upcoming(b);
    let times = b.results[i].runs_secs@;
    assert(b.result_wf(b.results[i]));
    law_ascending(times, times);
    if b.runs % 2 == 1 {
        let m = ascending(times)[times.len() as int / 2];
        assert(ascending(times).contains(m));
        to_multiset_contains(ascending(times), m);
        to_multiset_contains(times, m);
    }
}

/// A benchmark ends: its position grows with every run, and never passes the
/// number of warm-ups and turns.
pub proof fn law_benchmark_ends(b: Benchmark)
    requires
        b.wf(),
    ensures
        0 <= b.position() <= b.results.len() * (b.runs + 1),
{
    let n = b.results.len() as int;
    let runs = b.runs as int;
    match b.stage {
        Stage::WarmUp(_) => {
            assert(n <= n * (runs + 1)) by (nonlinear_arith)
                requires
                    n >= 0,
                    runs >= 0,
            ;
        },
        Stage::Round(round, _) => {
            let r = round as int;
            assert(0 <= r * n && n + r * n + n <= n * (runs + 1)) by (nonlinear_arith)
                requires
                    n >= 0,
                    0 <= r < runs,
            ;
        },
    }
}

/// The first round visits the builds in order, and with each round the order is
/// turned round: an even round has its place `step` for build `step`, an odd
/// round for the build that is `step` places before the last.
pub proof fn law_order_of_rounds(n: int, round: int, step: int)
    requires
        0 <= round,
    ensures
        round % 2 == 0 ==> turn(n, round, step) == step,
        round % 2 == 1 ==> turn(n, round, step) + step == n - 1,
        turn(n, 0, step) == step,
{
}

/// A timed run that finished adds one time behind the others: the one that the
/// build reported, whenever it reported one and whatever is known of its load
/// time, and else the time that the whole process took. The first load time
/// that the build reports is kept, and the transcript is that of the run.
pub proof fn law_reported_time_is_kept(
    before: VariantResult,
    after: VariantResult,
    out: RunOutput,
    reference: Option<String>,
)
    requires
        recorded(before, after, true, Outcome::Finished(out), reference),
    ensures
        after.runs_secs.len() == before.runs_secs.len() + 1,
        after.runs_secs@.drop_last() == before.runs_secs@,
        out.transcribe_secs matches Some(t) ==> after.runs_secs@.last() == t,
        out.transcribe_secs is None ==> after.runs_secs@.last() == out.wall_secs,
        before.model_load_secs is Some ==> after.model_load_secs == before.model_load_secs,
        before.model_load_secs is None ==> after.model_load_secs == out.model_load_secs,
        after.transcript is Some,
        after.transcript->0@ == out.text@,
        after.error is Some <==> before.error is Some,
        after.variant == before.variant,
        after.median_secs == before.median_secs,
{
    assert(after.runs_secs@.drop_last() =~= before.runs_secs@);
}

/// A timed run that finished is scored against the reference, where there is
/// one, by the words of its own transcript.
pub proof fn law_run_is_scored(
    before: VariantResult,
    after: VariantResult,
    out: RunOutput,
    reference: Option<String>,
)
    requires
        recorded(before, after, true, Outcome::Finished(out), reference),
    ensures
        reference is None ==> after.word_error_rate is None,
        reference matches Some(r) ==> after.word_error_rate is Some && (scored_words(r@).len() > 0
            ==> after.word_error_rate->0.words == scored_words(r@).len()
            && after.word_error_rate->0.errors == distance(
            scored_words(r@),
            scored_words(out.text@),
        )),
{
}

/// A warm-up that finished changes nothing, and a run that failed, timed or
/// not, leaves its reason and changes nothing else.
pub proof fn law_other_runs_leave_no_time(
    before: VariantResult,
    after: VariantResult,
    timed: bool,
    outcome: Outcome,
    reference: Option<String>,
)
    requires
        recorded(before, after, timed, outcome, reference),
    ensures
        !timed && outcome is Finished ==> after == before,
        outcome matches Outcome::Failed(message) ==> {
            &&& after.error is Some
            &&& after.error->0@ == message@
            &&& after.runs_secs@ == before.runs_secs@
            &&& after.median_secs == before.median_secs
            &&& after.model_load_secs == before.model_load_secs
            &&& after.word_error_rate == before.word_error_rate
            &&& after.transcript is Some <==> before.transcript is Some
            &&& after.transcript is Some ==> after.transcript->0@ == before.transcript->0@
        },
{
}

proof fn lemma_next_turn_is_first(
    failed: Seq<bool>,
    runs: int,
    round: int,
    step: int,
    q: int,
    t: int,
)
    requires
        0 <= round,
        0 <= step <= failed.len(),
        round < q || (round == q && step <= t),
        q < runs,
        0 <= t < failed.len(),
        !failed[turn(failed.len() as int, q, t)],
    ensures
        next_turn(failed, runs, round, step) matches Some((r, s)) && {
            &&& round < r || (round == r && step <= s)
            &&& r < q || (r == q && s <= t)
            &&& 0 <= s < failed.len()
        },
    decreases runs - round, failed.len() - step,
{
    if step >= failed.len() {
        lemma_next_turn_is_first(failed, runs, round + 1, 0, q, t);
    } else if failed[turn(failed.len() as int, round, step)] {
        lemma_next_turn_is_first(failed, runs, round, step + 1, q, t);
    }
}

/// No turn of a build that has not failed is passed over: with the warm-ups
/// done, and where the build has place `t` of round `q` before it, the next run
/// is a timed one at that place or at an earlier one, and at none that is done.
pub proof fn law_no_turn_is_passed_over(b: Benchmark, q: int, t: int, i: int)
    requires
        b.wf(),
        0 <= q < b.runs,
        0 <= t < b.results.len(),
        q % 2 == 0 ==> i == t,
        q % 2 == 1 ==> i == b.results.len() - 1 - t,
        b.results[i].error is None,
        b.stage matches Stage::WarmUp(k) ==> k == b.results.len(),
        b.stage matches Stage::Round(r, s) ==> r < q || (r == q && s <= t),
    ensures
        b.upcoming() matches Some(job) && {
            &&& job.round matches Some(round) && {
                let place = if round % 2 == 0 {
                    job.index as int
                } else {
                    b.results.len() - 1 - job.index
                };
                &&& round < q || (round == q && place <= t)
                &&& b.stage matches Stage::Round(r, s) ==> r < round || (r == round && s <= place)
            }
        },
{
    let failed = failures(b.results@);
    let n = b.results.len() as int;
    let from: (int, int) = match b.stage {
        Stage::WarmUp(_) => (0, 0),
        Stage::Round(round, step) => (round as int, step as int),
    };
    assert(failed[i] == (b.results[i].error is Some));
    lemma_next_turn_is_first(failed, b.runs as int, from.0, from.1, q, t);
    lemma_upcoming(b);
}

/// At every stage, the score of a build that was timed is that of its
/// transcript against the reference, and no build is timed more often than
/// there are rounds.
pub proof fn law_score_is_that_of_transcript(b: Benchmark, i: int)
    requires
        b.wf(),
        0 <= i < b.results.len(),
    ensures
        b.results[i].runs_secs.len() <= b.runs,
        b.results[i].transcript is Some <==> b.results[i].runs_secs.len() > 0,
        b.results[i].word_error_rate is Some <==> b.results[i].transcript is Some && b.reference
            is Some,
        b.results[i].word_error_rate matches Some(w) ==> w.words > 0 && (scored_words(
            b.reference->0@,
        ).len() > 0 ==> w.words == scored_words(b.reference->0@).len() && w.errors == distance(
            scored_words(b.reference->0@),
            scored_words(b.results[i].transcript->0@),
        )),
{
    assert(b.result_wf(b.results[i]));
}

/// At every stage, a build that has not failed has one time for each round that
/// is done, and one for the round under way if its place there is done.
pub proof fn law_times_so_far(b: Benchmark, i: int)
    requires
        b.wf(),
        0 <= i < b.results.len(),
        b.results[i].error is None,
    ensures
        b.stage is WarmUp ==> b.results[i].runs_secs.len() == 0,
        b.stage matches Stage::Round(round, step) ==> {
            let place = if round % 2 == 0 {
                i
            } else {
                b.results.len() - 1 - i
            };
            &&& place < step ==> b.results[i].runs_secs.len() == round + 1
            &&& place >= step ==> b.results[i].runs_secs.len() == round
        },
{
}

} // verus!
