//! The builds of the program that can be benchmarked.

use crate::secs::Secs;
use crate::words::WordErrorRate;
use vstd::prelude::*;

verus! {

/// A packaged build of the program. Builds are told apart by their number.
#[derive(Clone, Copy, Debug, PartialEq, Eq)]
pub struct Variant {
    pub id: u32,
    pub binary_name: &'static str,
    pub display: &'static str,
}

impl Variant {
    /// The name of the build's file.
    pub fn binary_name(&self) -> (r: &'static str)
        ensures
            r == self.binary_name,
    {
        self.binary_name
    }

    /// The name of the build for people.
    pub fn display(&self) -> (r: &'static str)
        ensures
            r == self.display,
    {
        self.display
    }

    /// Whether the two are one build.
    pub fn same(&self, other: &Variant) -> (r: bool)
        ensures
            r == (self.id == other.id),
    {
        self.id == other.id
    }
}

/// A build that is installed, and what is known of it on this machine.
#[derive(Clone, Debug)]
pub struct Installed {
    pub variant: Variant,
    /// The engines that the build holds.
    pub engines: Vec<String>,
    /// Whether this CPU has the instructions that the build needs.
    pub runs_on_cpu: bool,
    /// Whether this machine has the GPU that the build needs, if any.
    pub gpu_available: bool,
}

impl Installed {
    /// Whether the build holds `engine`.
    pub open spec fn supports(self, engine: Seq<char>) -> bool {
        exists|i: int| 0 <= i < self.engines.len() && (#[trigger] self.engines[i])@ == engine
    }

    /// Whether the build holds `engine`.
    pub fn supports_engine(&self, engine: &str) -> (r: bool)
        ensures
            r == self.supports(engine@),
            r <==> exists|i: int|
                0 <= i < self.engines.len() && (#[trigger] self.engines[i])@ == engine@,
    {
        let wanted = engine.to_owned();
        let mut i: usize = 0;
        while i < self.engines.len()
            invariant
                i <= self.engines.len(),
                wanted@ == engine@,
                forall|k: int| 0 <= k < i ==> (#[trigger] self.engines[k])@ != engine@,
            decreases self.engines.len() - i,
        {
            if self.engines[i] == wanted {
                return true;
            }
            i = i + 1;
        }
        false
    }

    /// Whether the build can run `engine` on this machine.
    pub open spec fn can_run(self, engine: Seq<char>) -> bool {
        self.supports(engine) && self.runs_on_cpu && self.gpu_available
    }
}

/// The builds that can run `engine` on this machine, in the order in which
/// they are installed.
pub open spec fn runnable(installed: Seq<Installed>, engine: Seq<char>) -> Seq<Variant> {
    installed.filter(|b: Installed| b.can_run(engine)).map_values(|b: Installed| b.variant)
}

/// Installed variants that can run `engine` on this CPU and GPU.
pub fn candidates(engine: &str, installed: &[Installed]) -> (r: Vec<Variant>)
    ensures
        r@ == runnable(installed@, engine@),
{
    let mut out: Vec<Variant> = Vec::new();
    let mut i: usize = 0;
    proof {
        reveal(Seq::filter);
        assert(out@ =~= runnable(installed@.take(0), engine@));
    }
    while i < installed.len()
        invariant
            i <= installed.len(),
            out@ == runnable(installed@.take(i as int), engine@),
        decreases installed.len() - i,
    {
        let b = &installed[i];
        proof {
            reveal(Seq::filter);
            assert(installed@.take(i + 1).drop_last() =~= installed@.take(i as int));
            assert(installed@.take(i + 1).last() == *b);
            assert(runnable(installed@.take(i + 1), engine@) =~= (if b.can_run(engine@) {
                out@.push(b.variant)
            } else {
                out@
            }));
        }
        if b.supports_engine(engine) && b.runs_on_cpu && b.gpu_available {
            out.push(b.variant);
        }
        i = i + 1;
    }
    proof {
        assert(installed@.take(i as int) =~= installed@);
    }
    out
}

/// What the benchmark found out about one build.
#[derive(Clone, Debug)]
pub struct VariantResult {
    pub variant: Variant,
    pub binary_name: &'static str,
    /// Transcription time of each timed run.
    pub runs_secs: Vec<Secs>,
    pub median_secs: Option<Secs>,
    pub model_load_secs: Option<Secs>,
    /// `None` when no reference text was available to score against.
    pub word_error_rate: Option<WordErrorRate>,
    pub transcript: Option<String>,
    pub error: Option<String>,
}

impl VariantResult {
    /// A word error rate, where there is one, is a proper fraction of words.
    pub open spec fn wf(self) -> bool {
        self.word_error_rate matches Some(w) ==> w.wf()
    }
}

/// A build is among the candidates just where it holds the engine, this CPU has
/// its instructions and this machine has its GPU; and the candidates of several
/// builds are those of each, in order.
pub proof fn law_candidates(a: Seq<Installed>, b: Installed, c: Seq<Installed>, engine: Seq<char>)
    ensures
        runnable(Seq::empty(), engine) == Seq::<Variant>::empty(),
        runnable(a + c, engine) == runnable(a, engine) + runnable(c, engine),
        (exists|i: int| 0 <= i < b.engines.len() && (#[trigger] b.engines[i])@ == engine)
            && b.runs_on_cpu && b.gpu_available ==> runnable(seq![b], engine) == seq![b.variant],
        !((exists|i: int| 0 <= i < b.engines.len() && (#[trigger] b.engines[i])@ == engine)
            && b.runs_on_cpu && b.gpu_available) ==> runnable(seq![b], engine) == Seq::<
            Variant,
        >::empty(),
{
    let p = |x: Installed| x.can_run(engine);
    let f = |x: Installed| x.variant;
    reveal_with_fuel(Seq::filter, 2);
    assert(runnable(Seq::empty(), engine) =~= Seq::empty());
    Seq::filter_distributes_over_add(a, c, p);
    assert(runnable(a + c, engine) =~= runnable(a, engine) + runnable(c, engine));
    let one = seq![b];
    assert(one.drop_last() =~= Seq::empty());
    assert(one.last() == b);
    assert(runnable(one, engine) =~= (if b.can_run(engine) {
        seq![b.variant]
    } else {
        Seq::empty()
    }));
}

} // verus!
