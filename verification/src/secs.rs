//! Times in seconds, their order, and the middle of several.

use vstd::prelude::*;
use vstd::relations::{sorted_by, total_ordering};
use vstd::seq_lib::{lemma_sorted_unique, to_multiset_build, to_multiset_insert, to_multiset_len};

verus! {

/// A time in seconds, held as the bits of an IEEE 754 binary64 number. Its
/// arithmetic is left to whoever can do it on such numbers; here it is only
/// ordered.
#[derive(Clone, Copy, Debug, PartialEq, Eq, Structural)]
pub struct Secs {
    pub bits: u64,
}

impl Secs {
    /// The place of the number in the IEEE 754 total order: numbers without
    /// the sign bit go up with their bits, numbers with it go down, below all
    /// the others.
    pub open spec fn key(self) -> int {
        if self.bits < 0x8000_0000_0000_0000 {
            self.bits as int
        } else {
            0x7fff_ffff_ffff_ffff - self.bits
        }
    }

    /// Whether `self` comes strictly before `other` in the total order.
    pub fn less(self, other: Secs) -> (r: bool)
        ensures
            r == (self.key() < other.key()),
            self.bits < 0x8000_0000_0000_0000 && other.bits < 0x8000_0000_0000_0000 ==> r == (
            self.bits < other.bits),
            self.bits >= 0x8000_0000_0000_0000 && other.bits >= 0x8000_0000_0000_0000 ==> r == (
            self.bits > other.bits),
            self.bits >= 0x8000_0000_0000_0000 && other.bits < 0x8000_0000_0000_0000 ==> r,
            self.bits < 0x8000_0000_0000_0000 && other.bits >= 0x8000_0000_0000_0000 ==> !r,
    {
        let sign: u64 = 0x8000_0000_0000_0000;
        if self.bits < sign {
            other.bits < sign && self.bits < other.bits
        } else {
            other.bits < sign || other.bits < self.bits
        }
    }
}

/// The total order.
pub open spec fn at_most() -> spec_fn(Secs, Secs) -> bool {
    |a: Secs, b: Secs| a.key() <= b.key()
}

/// The times in ascending order; see `law_ascending`.
pub open spec fn ascending(values: Seq<Secs>) -> Seq<Secs> {
    values.sort_by(at_most())
}

/// No two times share a place in the order, so it is total.
pub proof fn law_order_is_total()
    ensures
        total_ordering(at_most()),
        forall|a: Secs, b: Secs| #![trigger a.key(), b.key()] a.key() == b.key() ==> a == b,
{
}

/// `ascending` holds the same times, in order, and is the only such sequence.
pub proof fn law_ascending(values: Seq<Secs>, other: Seq<Secs>)
    ensures
        sorted_by(ascending(values), at_most()),
        ascending(values).to_multiset() == values.to_multiset(),
        ascending(values).len() == values.len(),
        sorted_by(other, at_most()) && other.to_multiset() == values.to_multiset() ==> other
            == ascending(values),
{
    law_order_is_total();
    values.lemma_sort_by_ensures(at_most());
    to_multiset_len(values);
    to_multiset_len(ascending(values));
    if sorted_by(other, at_most()) && other.to_multiset() == values.to_multiset() {
        lemma_sorted_unique(other, ascending(values), at_most());
    }
}

/// The middle of several times.
#[derive(Clone, Copy, Debug, PartialEq, Eq, Structural)]
pub enum Median {
    /// The middle one of an odd number of times.
    Middle(Secs),
    /// The mean of the middle two of an even number of times.
    MeanOf(Secs, Secs),
}

/// The middle of times in ascending order.
pub open spec fn middle(sorted: Seq<Secs>) -> Option<Median> {
    let mid = sorted.len() as int / 2;
    if sorted.len() == 0 {
        None
    } else if sorted.len() % 2 == 0 {
        Some(Median::MeanOf(sorted[mid - 1], sorted[mid]))
    } else {
        Some(Median::Middle(sorted[mid]))
    }
}

/// The times in ascending order.
pub fn sort(values: &[Secs]) -> (r: Vec<Secs>)
    ensures
        r@ == ascending(values@),
{
    let mut out: Vec<Secs> = Vec::new();
    let mut i: usize = 0;
    proof {
        assert(values@.take(0) =~= out@);
    }
    while i < values.len()
        invariant
            i <= values.len(),
            out.len() == i,
            out@.to_multiset() == values@.take(i as int).to_multiset(),
            sorted_by(out@, at_most()),
        decreases values.len() - i,
    {
        let v = values[i];
        let mut at: usize = i;
        while at > 0 && v.less(out[at - 1])
            invariant
                at <= i == out.len(),
                sorted_by(out@, at_most()),
                forall|k: int| at <= k < i ==> v.key() < (#[trigger] out[k]).key(),
            decreases at,
        {
            at = at - 1;
        }
        proof {
            to_multiset_insert(out@, at as int, v);
            to_multiset_build(values@.take(i as int), v);
            assert(values@.take(i + 1) =~= values@.take(i as int).push(v));
            let next = out@.insert(at as int, v);
            assert forall|a: int, b: int| 0 <= a < b < next.len() implies #[trigger] at_most()(
                next[a],
                next[b],
            ) by {
                let x: int = if a < at {
                    a
                } else {
                    a - 1
                };
                let y: int = if b < at {
                    b
                } else {
                    b - 1
                };
                if a != at && b != at {
                    assert(at_most()(out[x], out[y]));
                } else if b == at {
                    if a < at - 1 {
                        assert(at_most()(out[a], out[at - 1]));
                    }
                } else {
                    assert(v.key() < out[y].key());
                }
            }
        }
        out.insert(at, v);
        i = i + 1;
    }
    proof {
        assert(values@.take(i as int) =~= values@);
        law_ascending(values@, out@);
    }
    out
}

/// The middle of the times, or nothing where there are none.
pub fn median(values: &[Secs]) -> (r: Option<Median>)
    ensures
        r == middle(ascending(values@)),
        r is None <==> values@.len() == 0,
        r is Some && r->0 is Middle <==> values@.len() % 2 == 1,
        r matches Some(Median::Middle(m)) ==> exists|k: int|
            0 <= k < values@.len() && k == values@.len() - 1 - k && #[trigger] ascending(
                values@,
            )[k] == m,
        r matches Some(Median::MeanOf(a, b)) ==> exists|k: int|
            0 <= k < values@.len() - 1 && k == values@.len() - 2 - k && #[trigger] ascending(
                values@,
            )[k] == a && ascending(values@)[k + 1] == b,
{
    proof {
        law_ascending(values@, values@);
    }
    let sorted = sort(values);
    let mid: usize = sorted.len() / 2;
    if sorted.len() == 0 {
        None
    } else if sorted.len() % 2 == 0 {
        assert(ascending(values@)[mid - 1] == sorted[mid - 1]);
        Some(Median::MeanOf(sorted[mid - 1], sorted[mid]))
    } else {
        assert(ascending(values@)[mid as int] == sorted[mid as int]);
        Some(Median::Middle(sorted[mid]))
    }
}

/// The middle of the times as one time, where `mean` is the mean of the middle
/// two.
pub open spec fn settled(values: Seq<Secs>, mean: Secs) -> Option<Secs> {
    match middle(ascending(values)) {
        None => None,
        Some(Median::Middle(m)) => Some(m),
        Some(Median::MeanOf(_, _)) => Some(mean),
    }
}

/// The middle of the times as one time. The mean of the middle two, which is
/// needed where the number of times is even, is given.
pub fn settle(values: &[Secs], mean: Secs) -> (r: Option<Secs>)
    ensures
        r == settled(values@, mean),
        r is None <==> values@.len() == 0,
        values@.len() > 0 && values@.len() % 2 == 0 ==> r == Some(mean),
        values@.len() % 2 == 1 ==> exists|k: int|
            0 <= k < values@.len() && k == values@.len() - 1 - k && Some(
                #[trigger] ascending(values@)[k],
            ) == r,
{
    match median(values) {
        None => None,
        Some(Median::Middle(m)) => Some(m),
        Some(Median::MeanOf(_, _)) => Some(mean),
    }
}

/// The order in which the times were taken does not matter to their middle.
pub proof fn law_median_ignores_order(a: Seq<Secs>, b: Seq<Secs>)
    requires
        a.to_multiset() == b.to_multiset(),
    ensures
        middle(ascending(a)) == middle(ascending(b)),
{
    law_ascending(b, b);
    law_ascending(a, ascending(b));
}

/// The total order by the bits: without the sign bit they go up, with it they
/// go down, and every number with it comes before every number without.
pub proof fn law_order_of_bits(a: Secs, b: Secs)
    ensures
        a.bits < 0x8000_0000_0000_0000 && b.bits < 0x8000_0000_0000_0000 ==> (a.key() < b.key()
            <==> a.bits < b.bits),
        a.bits >= 0x8000_0000_0000_0000 && b.bits >= 0x8000_0000_0000_0000 ==> (a.key() < b.key()
            <==> a.bits > b.bits),
        a.bits >= 0x8000_0000_0000_0000 && b.bits < 0x8000_0000_0000_0000 ==> a.key() < b.key(),
        a.key() == b.key() <==> a.bits == b.bits,
{
}

/// No time in `ascending` comes before one that stands further left.
pub proof fn law_ascending_goes_up(values: Seq<Secs>, i: int, j: int)
    requires
        0 <= i <= j < values.len(),
    ensures
        ascending(values)[i].key() <= ascending(values)[j].key(),
{
    law_ascending(values, values);
    if i < j {
        assert(at_most()(ascending(values)[i], ascending(values)[j]));
    }
}

/// As many of the times meet a condition as of the same times in another order.
proof fn lemma_same_count(values: Seq<Secs>, p: spec_fn(Secs) -> bool)
    ensures
        values.filter(p).len() == values.to_multiset().filter(p).len(),
    decreases values.len(),
{
    reveal(Seq::filter);
    broadcast use vstd::multiset::group_multiset_axioms;

    if values.len() == 0 {
        assert(values.to_multiset() =~= vstd::multiset::Multiset::empty()) by {
            values.to_multiset_ensures();
            to_multiset_len(values);
        }
        assert(values.to_multiset().filter(p) =~= vstd::multiset::Multiset::empty());
    } else {
        let less = values.drop_last();
        let last = values.last();
        lemma_same_count(less, p);
        assert(values =~= less.push(last));
        to_multiset_build(less, last);
        let m = less.to_multiset();
        assert(values.to_multiset() == m.insert(last));
        if p(last) {
            assert(m.insert(last).filter(p) =~= m.filter(p).insert(last));
        } else {
            assert(m.insert(last).filter(p) =~= m.filter(p));
        }
    }
}

/// Where the times at the first `n` places meet a condition, at least `n` do.
proof fn lemma_count_of_start(values: Seq<Secs>, p: spec_fn(Secs) -> bool, n: int)
    requires
        0 <= n <= values.len(),
        forall|i: int| 0 <= i < n ==> p(#[trigger] values[i]),
    ensures
        values.filter(p).len() >= n,
    decreases values.len(),
{
    reveal(Seq::filter);
    if values.len() > 0 {
        let less = values.drop_last();
        if n == values.len() {
            lemma_count_of_start(less, p, n - 1);
            assert(p(values[n - 1]));
        } else {
            lemma_count_of_start(less, p, n);
        }
    }
}

/// Where the times from place `n` on meet a condition, at least so many do.
proof fn lemma_count_of_end(values: Seq<Secs>, p: spec_fn(Secs) -> bool, n: int)
    requires
        0 <= n <= values.len(),
        forall|i: int| n <= i < values.len() ==> p(#[trigger] values[i]),
    ensures
        values.filter(p).len() >= values.len() - n,
    decreases values.len(),
{
    reveal(Seq::filter);
    if n < values.len() {
        lemma_count_of_end(values.drop_last(), p, n);
        assert(p(values[values.len() - 1]));
    }
}

/// Of an odd number of times the median is one, with as many places of the
/// sorted times before it as behind it; at least half of the times, itself
/// counted, do not come after it, and as many do not come before it.
pub proof fn law_median_of_odd(values: Seq<Secs>)
    requires
        values.len() % 2 == 1,
    ensures
        middle(ascending(values)) matches Some(Median::Middle(m)) && {
            &&& values.contains(m)
            &&& exists|k: int|
                0 <= k < values.len() && k == values.len() - 1 - k && #[trigger] ascending(
                    values,
                )[k] == m
            &&& 2 * values.filter(|v: Secs| v.key() <= m.key()).len() >= values.len() + 1
            &&& 2 * values.filter(|v: Secs| v.key() >= m.key()).len() >= values.len() + 1
        },
{
    law_ascending(values, values);
    let s = ascending(values);
    let k = (values.len() as int - 1) / 2;
    let m = s[k];
    vstd::seq_lib::to_multiset_contains(s, m);
    vstd::seq_lib::to_multiset_contains(values, m);
    let low = |v: Secs| v.key() <= m.key();
    let high = |v: Secs| v.key() >= m.key();
    assert forall|i: int| 0 <= i < k + 1 implies low(#[trigger] s[i]) by {
        law_ascending_goes_up(values, i, k);
    }
    assert forall|i: int| k <= i < s.len() implies high(#[trigger] s[i]) by {
        law_ascending_goes_up(values, k, i);
    }
    lemma_count_of_start(s, low, k + 1);
    lemma_count_of_end(s, high, k);
    lemma_same_count(s, low);
    lemma_same_count(values, low);
    lemma_same_count(s, high);
    lemma_same_count(values, high);
}

/// Of an even number of times the median lies between two neighbours in the
/// sorted order, with as many times before the first as behind the second:
/// half of the times do not come after the first, and half do not come before
/// the second.
pub proof fn law_median_of_even(values: Seq<Secs>)
    requires
        values.len() > 0,
        values.len() % 2 == 0,
    ensures
        middle(ascending(values)) matches Some(Median::MeanOf(a, b)) && {
            &&& values.contains(a)
            &&& values.contains(b)
            &&& a.key() <= b.key()
            &&& exists|k: int|
                0 <= k < values.len() - 1 && k == values.len() - 2 - k && #[trigger] ascending(
                    values,
                )[k] == a && ascending(values)[k + 1] == b
            &&& 2 * values.filter(|v: Secs| v.key() <= a.key()).len() >= values.len()
            &&& 2 * values.filter(|v: Secs| v.key() >= b.key()).len() >= values.len()
        },
{
    law_ascending(values, values);
    let s = ascending(values);
    let k = values.len() as int / 2 - 1;
    let a = s[k];
    let b = s[k + 1];
    vstd::seq_lib::to_multiset_contains(s, a);
    vstd::seq_lib::to_multiset_contains(values, a);
    vstd::seq_lib::to_multiset_contains(s, b);
    vstd::seq_lib::to_multiset_contains(values, b);
    law_ascending_goes_up(values, k, k + 1);
    let low = |v: Secs| v.key() <= a.key();
    let high = |v: Secs| v.key() >= b.key();
    assert forall|i: int| 0 <= i < k + 1 implies low(#[trigger] s[i]) by {
        law_ascending_goes_up(values, i, k);
    }
    assert forall|i: int| k + 1 <= i < s.len() implies high(#[trigger] s[i]) by {
        law_ascending_goes_up(values, k + 1, i);
    }
    lemma_count_of_start(s, low, k + 1);
    lemma_count_of_end(s, high, k + 1);
    lemma_same_count(s, low);
    lemma_same_count(values, low);
    lemma_same_count(s, high);
    lemma_same_count(values, high);
}

/// Of no times there is no median.
pub proof fn law_median_of_none()
    ensures
        middle(ascending(Seq::empty())) is None,
{
    law_ascending(Seq::empty(), Seq::empty());
}

/// Settled is the middle time of an odd number, the given mean of an even one,
/// and nothing where there are no times.
pub proof fn law_settled(values: Seq<Secs>, mean: Secs)
    ensures
        settled(values, mean) is None <==> values.len() == 0,
        values.len() > 0 && values.len() % 2 == 0 ==> settled(values, mean) == Some(mean),
        values.len() % 2 == 1 ==> exists|k: int|
            0 <= k < values.len() && k == values.len() - 1 - k && Some(
                #[trigger] ascending(values)[k],
            ) == settled(values, mean),
{
    law_ascending(values, values);
    if values.len() % 2 == 1 {
        law_median_of_odd(values);
    } else if values.len() > 0 {
        law_median_of_even(values);
    }
}

} // verus!
