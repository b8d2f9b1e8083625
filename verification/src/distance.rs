//! Edit distance between two sequences of words.

use crate::text::texts;
use vstd::prelude::*;

verus! {

pub open spec fn min2(a: nat, b: nat) -> nat {
    if a <= b {
        a
    } else {
        b
    }
}

/// The least number of insertions, deletions and substitutions of single
/// items that turn `a` into `b`; see `law_distance_is_least`.
pub open spec fn distance<T>(a: Seq<T>, b: Seq<T>) -> nat
    decreases a.len() + b.len(),
{
    if a.len() == 0 {
        b.len()
    } else if b.len() == 0 {
        a.len()
    } else {
        let replaced: nat = if a.last() == b.last() {
            0
        } else {
            1
        };
        min2(
            distance(a.drop_last(), b.drop_last()) + replaced,
            min2(distance(a.drop_last(), b) + 1, distance(a, b.drop_last()) + 1),
        )
    }
}

/// The distance is at most the length of the longer sequence.
pub proof fn law_distance_bounded<T>(a: Seq<T>, b: Seq<T>)
    ensures
        distance(a, b) <= a.len() || distance(a, b) <= b.len(),
        distance(a, b) + a.len() >= b.len(),
        distance(a, b) + b.len() >= a.len(),
    decreases a.len() + b.len(),
{
    if a.len() > 0 && b.len() > 0 {
        law_distance_bounded(a.drop_last(), b.drop_last());
        law_distance_bounded(a.drop_last(), b);
        law_distance_bounded(a, b.drop_last());
    }
}

/// The distance is the same in both directions.
pub proof fn law_distance_symmetric<T>(a: Seq<T>, b: Seq<T>)
    ensures
        distance(a, b) == distance(b, a),
    decreases a.len() + b.len(),
{
    if a.len() > 0 && b.len() > 0 {
        law_distance_symmetric(a.drop_last(), b.drop_last());
        law_distance_symmetric(a.drop_last(), b);
        law_distance_symmetric(a, b.drop_last());
    }
}

/// The distance is zero between equal sequences and between no others.
pub proof fn law_distance_zero<T>(a: Seq<T>, b: Seq<T>)
    ensures
        distance(a, b) == 0 <==> a == b,
    decreases a.len() + b.len(),
{
    if a.len() > 0 && b.len() > 0 {
        law_distance_zero(a.drop_last(), b.drop_last());
        if distance(a, b) == 0 {
            assert(a =~= a.drop_last().push(a.last()));
            assert(b =~= b.drop_last().push(b.last()));
        }
    } else {
        assert(distance(a, b) == 0 <==> a.len() == 0 && b.len() == 0);
        if a.len() == 0 && b.len() == 0 {
            assert(a =~= b);
        }
    }
}

/// One step of turning a sequence into another, from left to right.
pub enum Edit<T> {
    /// Take the next item over as it is.
    Keep,
    /// Put this item in place of the next one.
    Replace(T),
    /// Put this item in.
    Insert(T),
    /// Leave the next item out.
    Delete,
}

/// How many of the edits change something.
pub open spec fn cost<T>(script: Seq<Edit<T>>) -> nat
    decreases script.len(),
{
    if script.len() == 0 {
        0
    } else {
        let last: nat = if script.last() is Keep {
            0
        } else {
            1
        };
        cost(script.drop_last()) + last
    }
}

/// Whether the edits, made from left to right, use up `a` and give `b`.
pub open spec fn turns<T>(script: Seq<Edit<T>>, a: Seq<T>, b: Seq<T>) -> bool
    decreases script.len(),
{
    if script.len() == 0 {
        a.len() == 0 && b.len() == 0
    } else {
        let before = script.drop_last();
        match script.last() {
            Edit::Keep => a.len() > 0 && b.len() > 0 && a.last() == b.last() && turns(
                before,
                a.drop_last(),
                b.drop_last(),
            ),
            Edit::Replace(t) => a.len() > 0 && b.len() > 0 && b.last() == t && turns(
                before,
                a.drop_last(),
                b.drop_last(),
            ),
            Edit::Insert(t) => b.len() > 0 && b.last() == t && turns(before, a, b.drop_last()),
            Edit::Delete => a.len() > 0 && turns(before, a.drop_last(), b),
        }
    }
}

/// A cheapest list of edits that turns `a` into `b`.
pub open spec fn best_script<T>(a: Seq<T>, b: Seq<T>) -> Seq<Edit<T>>
    decreases a.len() + b.len(),
{
    if a.len() == 0 && b.len() == 0 {
        Seq::empty()
    } else if a.len() == 0 {
        best_script(a, b.drop_last()).push(Edit::Insert(b.last()))
    } else if b.len() == 0 {
        best_script(a.drop_last(), b).push(Edit::Delete)
    } else if a.last() == b.last() && distance(a, b) == distance(a.drop_last(), b.drop_last()) {
        best_script(a.drop_last(), b.drop_last()).push(Edit::Keep)
    } else if distance(a, b) == distance(a.drop_last(), b.drop_last()) + 1 {
        best_script(a.drop_last(), b.drop_last()).push(Edit::Replace(b.last()))
    } else if distance(a, b) == distance(a.drop_last(), b) + 1 {
        best_script(a.drop_last(), b).push(Edit::Delete)
    } else {
        best_script(a, b.drop_last()).push(Edit::Insert(b.last()))
    }
}

proof fn lemma_push_script<T>(script: Seq<Edit<T>>, e: Edit<T>)
    ensures
        cost(script.push(e)) == cost(script) + (if e is Keep {
            0nat
        } else {
            1nat
        }),
        script.push(e).drop_last() == script,
        script.push(e).last() == e,
{
    assert(script.push(e).drop_last() =~= script);
}

/// The distance is reached: some list of edits turns `a` into `b` and costs
/// just that.
pub proof fn law_distance_is_reached<T>(a: Seq<T>, b: Seq<T>)
    ensures
        turns(best_script(a, b), a, b),
        cost(best_script(a, b)) == distance(a, b),
    decreases a.len() + b.len(),
{
    if a.len() == 0 && b.len() == 0 {
    } else if a.len() == 0 {
        law_distance_is_reached(a, b.drop_last());
        lemma_push_script(best_script(a, b.drop_last()), Edit::Insert(b.last()));
    } else if b.len() == 0 {
        law_distance_is_reached(a.drop_last(), b);
        lemma_push_script(best_script(a.drop_last(), b), Edit::<T>::Delete);
    } else {
        law_distance_is_reached(a.drop_last(), b.drop_last());
        law_distance_is_reached(a.drop_last(), b);
        law_distance_is_reached(a, b.drop_last());
        lemma_push_script(best_script(a.drop_last(), b.drop_last()), Edit::<T>::Keep);
        lemma_push_script(best_script(a.drop_last(), b.drop_last()), Edit::Replace(b.last()));
        lemma_push_script(best_script(a.drop_last(), b), Edit::<T>::Delete);
        lemma_push_script(best_script(a, b.drop_last()), Edit::Insert(b.last()));
    }
}

/// The distance is least: no list of edits that turns `a` into `b` costs less.
pub proof fn law_distance_is_least<T>(script: Seq<Edit<T>>, a: Seq<T>, b: Seq<T>)
    requires
        turns(script, a, b),
    ensures
        distance(a, b) <= cost(script),
    decreases script.len(),
{
    if script.len() > 0 {
        let before = script.drop_last();
        match script.last() {
            Edit::Keep => law_distance_is_least(before, a.drop_last(), b.drop_last()),
            Edit::Replace(_) => law_distance_is_least(before, a.drop_last(), b.drop_last()),
            Edit::Insert(_) => {
                law_distance_is_least(before, a, b.drop_last());
                law_distance_bounded(a, b.drop_last());
            },
            Edit::Delete => {
                law_distance_is_least(before, a.drop_last(), b);
                law_distance_bounded(a.drop_last(), b);
            },
        }
    }
}

/// What the next cell of the table holds.
proof fn lemma_cell<T>(a: Seq<T>, b: Seq<T>, i: int, j: int)
    requires
        0 <= i < a.len(),
        0 <= j < b.len(),
    ensures
        distance(a.take(i + 1), b.take(j + 1)) == min2(
            distance(a.take(i), b.take(j)) + (if a[i] == b[j] {
                0nat
            } else {
                1nat
            }),
            min2(distance(a.take(i), b.take(j + 1)) + 1, distance(a.take(i + 1), b.take(j)) + 1),
        ),
{
    assert(a.take(i + 1).drop_last() =~= a.take(i));
    assert(b.take(j + 1).drop_last() =~= b.take(j));
}

/// The edit distance from `reference` to `hypothesis`, word by word.
pub fn edit_distance(reference: &Vec<String>, hypothesis: &Vec<String>) -> (r: usize)
    requires
        reference.len() < usize::MAX,
        hypothesis.len() < usize::MAX,
    ensures
        r == distance(texts(reference@), texts(hypothesis@)),
        forall|script: Seq<Edit<Seq<char>>>| #[trigger]
            turns(script, texts(reference@), texts(hypothesis@)) ==> r <= cost(script),
        exists|script: Seq<Edit<Seq<char>>>| #[trigger]
            turns(script, texts(reference@), texts(hypothesis@)) && r == cost(script),
{
    let ghost a = texts(reference@);
    let ghost b = texts(hypothesis@);
    let width: usize = hypothesis.len();
    let mut prev: Vec<usize> = Vec::new();
    let mut k: usize = 0;
    while k < width
        invariant
            k <= width == b.len() < usize::MAX,
            prev.len() == k,
            forall|j: int| 0 <= j < k ==> prev[j] == distance(a.take(0), b.take(j)),
        decreases width - k,
    {
        prev.push(k);
        k = k + 1;
    }
    prev.push(width);
    let mut i: usize = 0;
    while i < reference.len()
        invariant
            i <= reference.len() < usize::MAX,
            width == hypothesis.len() < usize::MAX,
            a == texts(reference@),
            b == texts(hypothesis@),
            prev.len() == width + 1,
            forall|j: int| 0 <= j <= width ==> prev[j] == distance(a.take(i as int), b.take(j)),
        decreases reference.len() - i,
    {
        let mut cur: Vec<usize> = Vec::new();
        cur.push(i + 1);
        let mut j: usize = 0;
        proof {
            assert(a.take(i + 1).len() == i + 1);
            assert(b.take(0).len() == 0);
        }
        while j < width
            invariant
                i < reference.len() < usize::MAX,
                j <= width == hypothesis.len() < usize::MAX,
                a == texts(reference@),
                b == texts(hypothesis@),
                prev.len() == width + 1,
                forall|k: int|
                    0 <= k <= width ==> prev[k] == distance(a.take(i as int), b.take(k)),
                cur.len() == j + 1,
                forall|k: int| 0 <= k <= j ==> cur[k] == distance(a.take(i + 1), b.take(k)),
            decreases width - j,
        {
            proof {
                lemma_cell(a, b, i as int, j as int);
                law_distance_bounded(a.take(i as int), b.take(j as int));
                law_distance_bounded(a.take(i as int), b.take(j + 1));
                law_distance_bounded(a.take(i + 1), b.take(j as int));
            }
            let same: bool = reference[i] == hypothesis[j];
            assert(same == (a[i as int] == b[j as int]));
            let replaced: usize = if same {
                prev[j]
            } else {
                prev[j] + 1
            };
            let deleted: usize = prev[j + 1] + 1;
            let inserted: usize = cur[j] + 1;
            let mut best: usize = replaced;
            if deleted < best {
                best = deleted;
            }
            if inserted < best {
                best = inserted;
            }
            cur.push(best);
            j = j + 1;
        }
        prev = cur;
        i = i + 1;
    }
    proof {
        assert(a.take(i as int) =~= a);
        assert(b.take(width as int) =~= b);
        law_distance_is_reached(a, b);
        assert forall|script: Seq<Edit<Seq<char>>>| #[trigger] turns(script, a, b) implies distance(
            a,
            b,
        ) <= cost(script) by {
            law_distance_is_least(script, a, b);
        }
    }
    prev[width]
}

/// Between sequences that have no item in common, the distance is the length of
/// the longer one.
pub proof fn law_nothing_in_common<T>(a: Seq<T>, b: Seq<T>)
    requires
        forall|i: int, j: int|
            0 <= i < a.len() && 0 <= j < b.len() ==> #[trigger] a[i] != #[trigger] b[j],
    ensures
        a.len() >= b.len() ==> distance(a, b) == a.len(),
        b.len() >= a.len() ==> distance(a, b) == b.len(),
    decreases a.len() + b.len(),
{
    if a.len() > 0 && b.len() > 0 {
        assert(a[a.len() - 1] != b[b.len() - 1]);
        law_nothing_in_common(a.drop_last(), b.drop_last());
        law_nothing_in_common(a.drop_last(), b);
        law_nothing_in_common(a, b.drop_last());
    }
}

} // verus!
