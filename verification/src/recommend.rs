//! Which build to recommend.

use crate::secs::Secs;
use crate::variant::{Variant, VariantResult};
use crate::words::WordErrorRate;
use vstd::prelude::*;

verus! {

/// A variant may make one more error in this many words than the best result
/// and still be recommended for being faster.
pub const WER_TOLERANCE_WORDS: u128 = 20;

/// Whether the rate `w` is at most the rate `best` plus the tolerance. The
/// rates are compared as fractions, so one that is worse by just the tolerance
/// is within it.
pub open spec fn within_tolerance(w: WordErrorRate, best: WordErrorRate) -> bool {
    WER_TOLERANCE_WORDS * (w.errors * best.words) <= WER_TOLERANCE_WORDS * (best.errors * w.words)
        + best.words * w.words
}

/// Whether a variant ran to the end and heard something.
pub open spec fn finished(r: VariantResult) -> bool {
    &&& r.error is None
    &&& r.median_secs is Some
    &&& r.transcript matches Some(t)
    &&& t@.len() > 0
}

/// Whether a variant, where it has a word error rate, is within the tolerance
/// of every variant that finished with one, and so of the best.
pub open spec fn accurate(results: Seq<VariantResult>, i: int) -> bool {
    results[i].word_error_rate matches Some(w) ==> forall|j: int|
        0 <= j < results.len() && finished(#[trigger] results[j])
            && results[j].word_error_rate is Some ==> within_tolerance(
            w,
            results[j].word_error_rate->0,
        )
}

/// Whether a variant can be recommended.
pub open spec fn eligible(results: Seq<VariantResult>, i: int) -> bool {
    0 <= i < results.len() && finished(results[i]) && accurate(results, i)
}

/// Whether `i` is the fastest of the variants that can be recommended, and the
/// first of them where several are equally fast.
pub open spec fn picked(results: Seq<VariantResult>, i: int) -> bool {
    &&& eligible(results, i)
    &&& forall|j: int| #[trigger]
        eligible(results, j) ==> results[i].median_secs->0.key() <= results[j].median_secs->0.key()
            && (j < i ==> results[i].median_secs->0.key() < results[j].median_secs->0.key())
}

proof fn lemma_product_fits(a: usize, b: usize)
    ensures
        0 <= a * b <= u128::MAX,
{
    assert(0 <= a * b <= 0xffff_ffff_ffff_ffff * 0xffff_ffff_ffff_ffff) by (nonlinear_arith)
        requires
            0 <= a <= 0xffff_ffff_ffff_ffff,
            0 <= b <= 0xffff_ffff_ffff_ffff,
    ;
}

impl WordErrorRate {
    /// Whether the rate `self` is at most the rate `other`.
    fn is_at_most(self, other: WordErrorRate) -> (r: bool)
        ensures
            r == self.at_most(other),
            r <==> self.errors * other.words <= other.errors * self.words,
    {
        proof {
            lemma_product_fits(self.errors, other.words);
            lemma_product_fits(other.errors, self.words);
        }
        self.errors as u128 * other.words as u128 <= other.errors as u128 * self.words as u128
    }

    /// Whether the rate `self` is at most the rate `best` plus the tolerance.
    fn is_within_tolerance(self, best: WordErrorRate) -> (r: bool)
        ensures
            r == within_tolerance(self, best),
            r <==> 20 * (self.errors * best.words) <= 20 * (best.errors * self.words) + best.words
                * self.words,
    {
        proof {
            lemma_product_fits(self.errors, best.words);
            lemma_product_fits(best.errors, self.words);
            lemma_product_fits(best.words, self.words);
        }
        let mine: u128 = self.errors as u128 * best.words as u128;
        let theirs: u128 = best.errors as u128 * self.words as u128;
        let unit: u128 = best.words as u128 * self.words as u128;
        mine <= theirs || mine - theirs <= unit / WER_TOLERANCE_WORDS
    }
}

proof fn lemma_at_most_transitive(a: WordErrorRate, b: WordErrorRate, c: WordErrorRate)
    requires
        b.wf(),
        a.at_most(b),
        b.at_most(c),
    ensures
        a.at_most(c),
{
    let (ae, aw, be, bw, ce, cw) = (
        a.errors as int,
        a.words as int,
        b.errors as int,
        b.words as int,
        c.errors as int,
        c.words as int,
    );
    assert(ae * cw <= ce * aw) by (nonlinear_arith)
        requires
            ae * bw <= be * aw,
            be * cw <= ce * bw,
            bw > 0,
            aw >= 0,
            cw >= 0,
    {
        assert(ae * bw * cw <= be * aw * cw);
        assert(be * cw * aw <= ce * bw * aw);
        assert((ae * cw) * bw <= (ce * aw) * bw);
    }
}

proof fn lemma_tolerance_of_best(w: WordErrorRate, best: WordErrorRate, v: WordErrorRate)
    requires
        best.wf(),
        best.at_most(v),
        within_tolerance(w, best),
    ensures
        within_tolerance(w, v),
{
    let (we, ww, be, bw, ve, vw) = (
        w.errors as int,
        w.words as int,
        best.errors as int,
        best.words as int,
        v.errors as int,
        v.words as int,
    );
    assert(20 * (we * vw) <= 20 * (ve * ww) + vw * ww) by (nonlinear_arith)
        requires
            20 * (we * bw) <= 20 * (be * ww) + bw * ww,
            be * vw <= ve * bw,
            bw > 0,
            ww >= 0,
            vw >= 0,
    {
        assert((20 * (we * bw)) * vw <= (20 * (be * ww) + bw * ww) * vw);
        assert(be * vw * ww <= ve * bw * ww);
        assert((20 * (we * vw)) * bw <= (20 * (ve * ww) + vw * ww) * bw);
    }
}

/// Every rate is within the tolerance of itself.
proof fn lemma_within_own_tolerance(w: WordErrorRate)
    ensures
        within_tolerance(w, w),
{
    assert(0 <= w.words * w.words) by (nonlinear_arith);
}

/// Whether a variant ran to the end and heard something.
fn is_finished(r: &VariantResult) -> (b: bool)
    ensures
        b == finished(*r),
        b <==> r.error is None && r.median_secs is Some && r.transcript is Some
            && r.transcript->0@.len() > 0,
{
    if r.error.is_some() || r.median_secs.is_none() {
        return false;
    }
    match &r.transcript {
        Some(t) => !t.as_str().is_empty(),
        None => false,
    }
}

/// Whether `j` is the first of the first `n` variants that finished with the
/// lowest word error rate.
pub open spec fn most_accurate(results: Seq<VariantResult>, n: int, j: int) -> bool {
    &&& 0 <= j < n
    &&& finished(results[j])
    &&& results[j].word_error_rate is Some
    &&& forall|k: int|
        0 <= k < n && finished(#[trigger] results[k]) && results[k].word_error_rate is Some ==> {
            &&& results[j].word_error_rate->0.at_most(results[k].word_error_rate->0)
            &&& k < j ==> !results[k].word_error_rate->0.at_most(results[j].word_error_rate->0)
        }
}

/// The lowest word error rate of the variants that finished with one.
pub fn best_rate(results: &[VariantResult]) -> (best: Option<WordErrorRate>)
    requires
        forall|i: int| 0 <= i < results.len() ==> (#[trigger] results[i]).wf(),
    ensures
        best is None ==> forall|j: int|
            0 <= j < results.len() && finished(#[trigger] results[j])
                ==> results[j].word_error_rate is None,
        best matches Some(b) ==> exists|j: int|
            #[trigger] most_accurate(results@, results@.len() as int, j)
                && results[j].word_error_rate == Some(b),
        best matches Some(b) ==> exists|j: int|
            {
                &&& #[trigger] most_accurate(results@, results@.len() as int, j)
                &&& 0 <= j < results.len()
                &&& results[j].word_error_rate == Some(b)
                &&& results[j].error is None
                &&& results[j].median_secs is Some
                &&& results[j].transcript is Some
                &&& results[j].transcript->0@.len() > 0
            },
        best matches Some(b) ==> forall|k: int|
            #![trigger results[k]]
            0 <= k < results.len() && results[k].error is None && results[k].median_secs is Some
                && results[k].transcript is Some && results[k].transcript->0@.len() > 0
                && results[k].word_error_rate is Some ==> b.errors
                * results[k].word_error_rate->0.words <= results[k].word_error_rate->0.errors
                * b.words,
        best is None <==> forall|k: int|
            #![trigger results[k]]
            0 <= k < results.len() && results[k].error is None && results[k].median_secs is Some
                && results[k].transcript is Some && results[k].transcript->0@.len() > 0
                ==> results[k].word_error_rate is None,
{
    let mut best: Option<usize> = None;
    let mut i: usize = 0;
    while i < results.len()
        invariant
            i <= results.len(),
            forall|k: int| 0 <= k < results.len() ==> (#[trigger] results[k]).wf(),
            best is None ==> forall|j: int|
                0 <= j < i && finished(#[trigger] results[j]) ==> results[j].word_error_rate
                    is None,
            best matches Some(j) ==> most_accurate(results@, i as int, j as int),
        decreases results.len() - i,
    {
        let r = &results[i];
        assert(results[i as int].wf());
        if is_finished(r) {
            if let Some(w) = r.word_error_rate {
                let better: bool = match best {
                    Some(j) => match results[j].word_error_rate {
                        Some(b) => !b.is_at_most(w),
                        None => false,
                    },
                    None => true,
                };
                if better {
                    proof {
                        if let Some(j) = best {
                            let b = results[j as int].word_error_rate->0;
                            assert(results[j as int].wf());
                            assert forall|k: int|
                                0 <= k < i && finished(#[trigger] results[k])
                                    && results[k].word_error_rate is Some implies {
                                &&& w.at_most(results[k].word_error_rate->0)
                                &&& !results[k].word_error_rate->0.at_most(w)
                            } by {
                                let v = results[k].word_error_rate->0;
                                assert(results[k].wf());
                                lemma_at_most_transitive(w, b, v);
                                if v.at_most(w) {
                                    lemma_at_most_transitive(b, v, w);
                                }
                            }
                        }
                    }
                    best = Some(i);
                }
            }
        }
        i = i + 1;
    }
    match best {
        Some(j) => {
            proof {
                assert(most_accurate(results@, results@.len() as int, j as int));
            }
            results[j].word_error_rate
        },
        None => None,
    }
}

/// The fastest variant whose word error rate is within the tolerance of the
/// best. Without a reference text, the fastest variant that produced any text.
pub fn pick_recommendation(results: &[VariantResult]) -> (r: Option<Variant>)
    requires
        forall|i: int| 0 <= i < results.len() ==> (#[trigger] results[i]).wf(),
    ensures
        r is None ==> forall|i: int| !#[trigger] eligible(results@, i),
        r matches Some(v) ==> exists|i: int|
            #[trigger] picked(results@, i) && v == results[i].variant,
        r matches Some(v) ==> exists|i: int|
            {
                &&& #[trigger] picked(results@, i)
                &&& 0 <= i < results.len()
                &&& v == results[i].variant
                &&& results[i].error is None
                &&& results[i].median_secs is Some
                &&& results[i].transcript is Some
                &&& results[i].transcript->0@.len() > 0
                &&& forall|j: int|
                    #![trigger results[j]]
                    0 <= j < results.len() && results[j].error is None && results[j].median_secs
                        is Some && results[j].transcript is Some && results[j].transcript->0@.len()
                        > 0 && results[j].word_error_rate is Some && results[i].word_error_rate
                        is Some ==> 20 * (results[i].word_error_rate->0.errors
                        * results[j].word_error_rate->0.words) <= 20 * (
                    results[j].word_error_rate->0.errors * results[i].word_error_rate->0.words)
                        + results[j].word_error_rate->0.words * results[i].word_error_rate->0.words
            },
        r is None <==> forall|i: int|
            #![trigger results[i]]
            0 <= i < results.len() ==> results[i].error is Some || results[i].median_secs is None
                || results[i].transcript is None || results[i].transcript->0@.len() == 0,
{
    let best = best_rate(results);
    let mut chosen: Option<usize> = None;
    let mut i: usize = 0;
    while i < results.len()
        invariant
            i <= results.len(),
            forall|k: int| 0 <= k < results.len() ==> (#[trigger] results[k]).wf(),
            best is None ==> forall|j: int|
                0 <= j < results.len() && finished(#[trigger] results[j])
                    ==> results[j].word_error_rate is None,
            best matches Some(b) ==> exists|j: int|
                #[trigger] most_accurate(results@, results@.len() as int, j)
                    && results[j].word_error_rate == Some(b),
            chosen is None ==> forall|j: int| 0 <= j < i ==> !#[trigger] eligible(results@, j),
            chosen matches Some(c) ==> {
                &&& c < i
                &&& eligible(results@, c as int)
                &&& forall|j: int|
                    0 <= j < i && #[trigger] eligible(results@, j)
                        ==> results[c as int].median_secs->0.key() <= results[j].median_secs->0.key()
                        && (j < c ==> results[c as int].median_secs->0.key()
                        < results[j].median_secs->0.key())
            },
        decreases results.len() - i,
    {
        let r = &results[i];
        if is_finished(r) {
            let close: bool = match (best, r.word_error_rate) {
                (Some(b), Some(w)) => w.is_within_tolerance(b),
                _ => true,
            };
            proof {
                assert(results@[i as int] == *r);
                if best is Some && r.word_error_rate is Some {
                    let b = best->0;
                    let w = r.word_error_rate->0;
                    let j0 = choose|j0: int|
                        #[trigger] most_accurate(results@, results@.len() as int, j0)
                            && results[j0].word_error_rate == Some(b);
                    assert(results[j0].wf());
                    assert(finished(results@[j0]));
                    if close {
                        assert forall|j: int|
                            0 <= j < results@.len() && finished(#[trigger] results@[j])
                                && results@[j].word_error_rate is Some implies within_tolerance(
                            w,
                            results@[j].word_error_rate->0,
                        ) by {
                            assert(finished(results[j]));
                            lemma_tolerance_of_best(w, b, results@[j].word_error_rate->0);
                        }
                    }
                }
                assert(close == accurate(results@, i as int));
            }
            if close {
                let faster: bool = match chosen {
                    Some(c) => match (r.median_secs, results[c].median_secs) {
                        (Some(mine), Some(theirs)) => mine.less(theirs),
                        _ => false,
                    },
                    None => true,
                };
                if faster {
                    chosen = Some(i);
                }
            }
        }
        i = i + 1;
    }
    match chosen {
        Some(c) => {
            proof {
                assert(picked(results@, c as int));
                assert(finished(results[c as int]));
                assert forall|j: int|
                    #![trigger results[j]]
                    0 <= j < results.len() && finished(results[j])
                        && results[j].word_error_rate is Some
                        && results[c as int].word_error_rate is Some implies within_tolerance(
                    results[c as int].word_error_rate->0,
                    results[j].word_error_rate->0,
                ) by {
                    assert(finished(results@[j]));
                }
            }
            Some(results[c].variant)
        },
        None => {
            proof {
                assert forall|i: int| #![trigger results[i]] 0 <= i < results.len() implies !finished(
                    results[i],
                ) by {
                    if finished(results@[i]) {
                        let e = lemma_some_eligible(results@, i);
                    }
                }
            }
            None
        },
    }
}

/// There is at most one variant to recommend.
pub proof fn law_pick_is_unique(results: Seq<VariantResult>, i: int, j: int)
    requires
        picked(results, i),
        picked(results, j),
    ensures
        i == j,
{
    assert(eligible(results, i) && eligible(results, j));
}

/// A recommendation is made whenever some variant finished: the most accurate
/// one can always be recommended.
pub proof fn law_recommends_if_any_finished(results: Seq<VariantResult>, k: int)
    requires
        forall|i: int| 0 <= i < results.len() ==> (#[trigger] results[i]).wf(),
        0 <= k < results.len(),
        finished(results[k]),
    ensures
        exists|i: int| #[trigger] picked(results, i),
{
    let e = lemma_some_eligible(results, k);
    let i = lemma_fastest(results, e, results.len() as int);
    assert(picked(results, i));
}

/// The most accurate of the first `n` finished variants that have a rate.
proof fn lemma_most_accurate(results: Seq<VariantResult>, n: int) -> (m: Option<int>)
    requires
        forall|i: int| 0 <= i < results.len() ==> (#[trigger] results[i]).wf(),
        0 <= n <= results.len(),
    ensures
        m is None ==> forall|j: int|
            0 <= j < n && finished(#[trigger] results[j]) ==> results[j].word_error_rate is None,
        m matches Some(b) ==> {
            &&& 0 <= b < n
            &&& finished(results[b])
            &&& results[b].word_error_rate is Some
            &&& forall|j: int|
                0 <= j < n && finished(#[trigger] results[j]) && results[j].word_error_rate is Some
                    ==> results[b].word_error_rate->0.at_most(results[j].word_error_rate->0)
        },
    decreases n,
{
    if n == 0 {
        None
    } else {
        let m = lemma_most_accurate(results, n - 1);
        let last = results[n - 1];
        assert(last.wf());
        if !(finished(last) && last.word_error_rate is Some) {
            m
        } else if m is None {
            Some(n - 1)
        } else {
            let b = m->0;
            assert(results[b].wf());
            if results[b].word_error_rate->0.at_most(last.word_error_rate->0) {
                m
            } else {
                assert forall|j: int|
                    0 <= j < n && finished(#[trigger] results[j]) && results[j].word_error_rate
                        is Some implies last.word_error_rate->0.at_most(
                    results[j].word_error_rate->0,
                ) by {
                    if j < n - 1 {
                        lemma_at_most_transitive(
                            last.word_error_rate->0,
                            results[b].word_error_rate->0,
                            results[j].word_error_rate->0,
                        );
                    }
                }
                Some(n - 1)
            }
        }
    }
}

proof fn lemma_some_eligible(results: Seq<VariantResult>, k: int) -> (e: int)
    requires
        forall|i: int| 0 <= i < results.len() ==> (#[trigger] results[i]).wf(),
        0 <= k < results.len(),
        finished(results[k]),
    ensures
        eligible(results, e),
{
    let m = lemma_most_accurate(results, results.len() as int);
    if m is None {
        assert(results[k].word_error_rate is None);
        k
    } else {
        let b = m->0;
        let w = results[b].word_error_rate->0;
        assert(results[b].wf());
        assert forall|j: int|
            0 <= j < results.len() && finished(#[trigger] results[j])
                && results[j].word_error_rate is Some implies within_tolerance(
            w,
            results[j].word_error_rate->0,
        ) by {
            lemma_within_own_tolerance(w);
            lemma_tolerance_of_best(w, w, results[j].word_error_rate->0);
        }
        b
    }
}

/// The fastest variant, and the first such, of those that can be recommended
/// among `e` and the first `n`.
proof fn lemma_fastest(results: Seq<VariantResult>, e: int, n: int) -> (i: int)
    requires
        eligible(results, e),
        0 <= n <= results.len(),
    ensures
        eligible(results, i),
        i == e || i < n,
        forall|j: int|
            (j < n || j == e) && #[trigger] eligible(results, j)
                ==> results[i].median_secs->0.key() <= results[j].median_secs->0.key() && (j < i
                && j < n ==> results[i].median_secs->0.key() < results[j].median_secs->0.key()),
    decreases n,
{
    if n == 0 {
        e
    } else {
        let i = lemma_fastest(results, e, n - 1);
        let last = n - 1;
        if eligible(results, last) && (results[last].median_secs->0.key()
            < results[i].median_secs->0.key() || (results[last].median_secs->0.key()
            == results[i].median_secs->0.key() && last < i)) {
            last
        } else {
            i
        }
    }
}

/// A variant that is too far from the accuracy of another one that finished is
/// not recommended, however fast it is.
pub proof fn law_wrong_words_are_not_recommended(results: Seq<VariantResult>, i: int, j: int)
    requires
        0 <= i < results.len(),
        0 <= j < results.len(),
        finished(results[j]),
        results[i].word_error_rate is Some,
        results[j].word_error_rate is Some,
        !within_tolerance(results[i].word_error_rate->0, results[j].word_error_rate->0),
    ensures
        !picked(results, i),
{
}

/// Failed variants and those that heard nothing are not recommended.
pub proof fn law_unfinished_is_not_recommended(results: Seq<VariantResult>, i: int)
    requires
        0 <= i < results.len(),
        results[i].error is Some || results[i].transcript is None || (
        results[i].transcript matches Some(t) && t@.len() == 0),
    ensures
        !picked(results, i),
{
}

/// Without a reference text, and so without word error rates, the fastest of
/// the variants that finished is recommended.
pub proof fn law_without_reference_fastest_wins(results: Seq<VariantResult>, i: int)
    requires
        forall|k: int| 0 <= k < results.len() ==> (#[trigger] results[k]).word_error_rate is None,
    ensures
        picked(results, i) <==> {
            &&& 0 <= i < results.len()
            &&& finished(results[i])
            &&& forall|j: int|
                0 <= j < results.len() && finished(#[trigger] results[j])
                    ==> results[i].median_secs->0.key() <= results[j].median_secs->0.key() && (j < i
                    ==> results[i].median_secs->0.key() < results[j].median_secs->0.key())
        },
{
    assert forall|j: int| 0 <= j < results.len() implies eligible(results, j) == finished(
        #[trigger] results[j],
    ) by {
        assert(results[j].word_error_rate is None);
    }
    if picked(results, i) {
        assert forall|j: int| 0 <= j < results.len() && finished(#[trigger] results[j]) implies
            results[i].median_secs->0.key() <= results[j].median_secs->0.key() && (j < i
            ==> results[i].median_secs->0.key() < results[j].median_secs->0.key()) by {
            assert(eligible(results, j));
        }
    }
}

/// A variant finished just where it did not fail, has a time and heard some
/// text.
pub proof fn law_finished(r: VariantResult)
    ensures
        finished(r) <==> r.error is None && r.median_secs is Some && r.transcript is Some
            && r.transcript->0@.len() > 0,
{
}

/// A variant that makes more than one error in twenty words more than another
/// one that finished is not recommended: with the rates `ei / wi` and
/// `ej / wj`, not where `ei / wi - ej / wj > 1 / 20`.
pub proof fn law_more_than_one_error_in_twenty_words_is_too_many(
    results: Seq<VariantResult>,
    i: int,
    j: int,
    mine: WordErrorRate,
    theirs: WordErrorRate,
)
    requires
        0 <= i < results.len(),
        0 <= j < results.len(),
        results[i].word_error_rate == Some(mine),
        results[j].word_error_rate == Some(theirs),
        results[j].error is None,
        results[j].median_secs is Some,
        results[j].transcript is Some,
        results[j].transcript->0@.len() > 0,
        mine.words > 0,
        theirs.words > 0,
        20 * (mine.errors * theirs.words) > 20 * (theirs.errors * mine.words) + mine.words
            * theirs.words,
    ensures
        !eligible(results, i),
        !picked(results, i),
{
    assert(finished(results[j]));
    assert(mine.words * theirs.words == theirs.words * mine.words) by (nonlinear_arith);
}

/// A variant that finished can be recommended where it makes at most one error
/// in twenty words more than each of the others that finished with a rate:
/// where `ei / wi - ej / wj <= 1 / 20` for each of them.
pub proof fn law_one_error_in_twenty_words_more_is_close(
    results: Seq<VariantResult>,
    i: int,
    mine: WordErrorRate,
)
    requires
        0 <= i < results.len(),
        results[i].error is None,
        results[i].median_secs is Some,
        results[i].transcript is Some,
        results[i].transcript->0@.len() > 0,
        results[i].word_error_rate == Some(mine),
        forall|j: int|
            #![trigger results[j]]
            0 <= j < results.len() && results[j].error is None && results[j].median_secs is Some
                && results[j].transcript is Some && results[j].transcript->0@.len() > 0
                && results[j].word_error_rate is Some ==> 20 * (mine.errors
                * results[j].word_error_rate->0.words) <= 20 * (
            results[j].word_error_rate->0.errors * mine.words) + mine.words
                * results[j].word_error_rate->0.words,
    ensures
        eligible(results, i),
{
    assert forall|j: int|
        0 <= j < results.len() && finished(#[trigger] results[j])
            && results[j].word_error_rate is Some implies within_tolerance(
        mine,
        results[j].word_error_rate->0,
    ) by {
        let theirs = results[j].word_error_rate->0;
        assert(mine.words * theirs.words == theirs.words * mine.words) by (nonlinear_arith);
    }
}

/// A variant that finished without a rate can be recommended.
pub proof fn law_without_rate_is_close(results: Seq<VariantResult>, i: int)
    requires
        0 <= i < results.len(),
        results[i].error is None,
        results[i].median_secs is Some,
        results[i].transcript is Some,
        results[i].transcript->0@.len() > 0,
        results[i].word_error_rate is None,
    ensures
        eligible(results, i),
{
}

/// Of the variants that can be recommended, the recommended one is the fastest,
/// and the first where several are equally fast; it did not fail, has a time
/// and heard some text.
pub proof fn law_recommended_is_fastest(
    results: Seq<VariantResult>,
    i: int,
    mine: Secs,
    j: int,
    theirs: Secs,
)
    requires
        picked(results, i),
        results[i].median_secs == Some(mine),
        eligible(results, j),
        results[j].median_secs == Some(theirs),
    ensures
        0 <= i < results.len(),
        results[i].error is None,
        results[i].transcript is Some,
        results[i].transcript->0@.len() > 0,
        mine.key() <= theirs.key(),
        mine == theirs ==> i <= j,
{
}

/// A variant that can be recommended and is faster than every other such one,
/// or as fast and before it, is recommended.
pub proof fn law_fastest_is_recommended(results: Seq<VariantResult>, i: int, mine: Secs)
    requires
        eligible(results, i),
        results[i].median_secs == Some(mine),
        forall|j: int| #[trigger]
            eligible(results, j) && j != i ==> results[j].median_secs is Some && (mine.key()
                < results[j].median_secs->0.key() || (mine == results[j].median_secs->0 && i < j)),
    ensures
        picked(results, i),
{
}

/// The most accurate variant makes the fewest errors per word, and is the first
/// one that does.
pub proof fn law_most_accurate(results: Seq<VariantResult>, j: int, k: int)
    requires
        most_accurate(results, results.len() as int, j),
        0 <= k < results.len(),
        results[k].error is None,
        results[k].median_secs is Some,
        results[k].transcript is Some,
        results[k].transcript->0@.len() > 0,
        results[k].word_error_rate is Some,
    ensures
        results[j].word_error_rate is Some,
        results[j].word_error_rate->0.errors * results[k].word_error_rate->0.words
            <= results[k].word_error_rate->0.errors * results[j].word_error_rate->0.words,
        k < j ==> results[j].word_error_rate->0.errors * results[k].word_error_rate->0.words
            < results[k].word_error_rate->0.errors * results[j].word_error_rate->0.words,
{
    assert(finished(results[k]));
}

/// Only a variant that did not fail, has a time and heard some text can be
/// recommended.
pub proof fn law_eligible_has_finished(results: Seq<VariantResult>, i: int)
    requires
        eligible(results, i),
    ensures
        0 <= i < results.len(),
        results[i].error is None,
        results[i].median_secs is Some,
        results[i].transcript is Some,
        results[i].transcript->0@.len() > 0,
{
}

} // verus!
