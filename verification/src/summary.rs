//! The mathematical model of an accumulator: what a non-empty collection of
//! readings comes to, and the algebra by which two such results combine.

use vstd::prelude::*;

verus! {

/// The smaller of two integers.
pub open spec fn lesser(a: int, b: int) -> int {
    if a <= b {
        a
    } else {
        b
    }
}

/// The larger of two integers.
pub open spec fn greater(a: int, b: int) -> int {
    if a >= b {
        a
    } else {
        b
    }
}

/// The least reading of a non-empty sequence.
pub open spec fn lowest(values: Seq<int>) -> int
    recommends
        values.len() > 0,
    decreases values.len(),
{
    if values.len() <= 1 {
        values[0]
    } else {
        lesser(lowest(values.drop_last()), values.last())
    }
}

/// The greatest reading of a non-empty sequence.
pub open spec fn highest(values: Seq<int>) -> int
    recommends
        values.len() > 0,
    decreases values.len(),
{
    if values.len() <= 1 {
        values[0]
    } else {
        greater(highest(values.drop_last()), values.last())
    }
}

/// The sum of all readings of a sequence.
pub open spec fn total(values: Seq<int>) -> int
    decreases values.len(),
{
    if values.len() == 0 {
        0
    } else {
        total(values.drop_last()) + values.last()
    }
}

/// Minimum, maximum, sum and number of a group of readings.
pub struct Summary {
    pub min: int,
    pub max: int,
    pub sum: int,
    pub count: nat,
}

impl Summary {
    /// The summary of exactly one reading.
    pub open spec fn single(value: int) -> Summary {
        Summary { min: value, max: value, sum: value, count: 1 }
    }

    /// The summary after one more reading has been seen.
    pub open spec fn observe(self, value: int) -> Summary {
        Summary {
            min: lesser(self.min, value),
            max: greater(self.max, value),
            sum: self.sum + value,
            count: self.count + 1,
        }
    }

    /// The summary of two groups of readings taken together.
    pub open spec fn merge(self, other: Summary) -> Summary {
        Summary {
            min: lesser(self.min, other.min),
            max: greater(self.max, other.max),
            sum: self.sum + other.sum,
            count: self.count + other.count,
        }
    }

    /// The summary of a non-empty sequence of readings.
    pub open spec fn of(values: Seq<int>) -> Summary
        recommends
            values.len() > 0,
    {
        Summary {
            min: lowest(values),
            max: highest(values),
            sum: total(values),
            count: values.len(),
        }
    }

    /// What every summary of real readings satisfies: it stands for at least
    /// one reading, and its sum lies between `count` times the minimum and
    /// `count` times the maximum.
    pub open spec fn consistent(self) -> bool {
        &&& self.count >= 1
        &&& self.min <= self.max
        &&& self.count * self.min <= self.sum <= self.count * self.max
    }

    /// The mean of the readings, rounded down to a whole unit.
    pub open spec fn mean_floor(self) -> int
        recommends
            self.count >= 1,
    {
        self.sum / (self.count as int)
    }
}

/// `lowest` names a reading of the sequence that no other reading is below.
pub proof fn lemma_lowest_is_least(values: Seq<int>)
    requires
        values.len() > 0,
    ensures
        values.contains(lowest(values)),
        forall|i: int| 0 <= i < values.len() ==> lowest(values) <= #[trigger] values[i],
    decreases values.len(),
{
    if values.len() > 1 {
        let front = values.drop_last();
        lemma_lowest_is_least(front);
        let w = choose|i: int| 0 <= i < front.len() && front[i] == lowest(front);
        assert(values[w] == lowest(front));
        assert(values[values.len() - 1] == values.last());
        assert forall|i: int| 0 <= i < values.len() implies lowest(values) <= #[trigger] values[i] by {
            if i < front.len() {
                assert(front[i] == values[i]);
            }
        }
    } else {
        assert(values[0] == lowest(values));
    }
}

/// `highest` names a reading of the sequence that no other reading is above.
pub proof fn lemma_highest_is_greatest(values: Seq<int>)
    requires
        values.len() > 0,
    ensures
        values.contains(highest(values)),
        forall|i: int| 0 <= i < values.len() ==> highest(values) >= #[trigger] values[i],
    decreases values.len(),
{
    if values.len() > 1 {
        let front = values.drop_last();
        lemma_highest_is_greatest(front);
        let w = choose|i: int| 0 <= i < front.len() && front[i] == highest(front);
        assert(values[w] == highest(front));
        assert(values[values.len() - 1] == values.last());
        assert forall|i: int| 0 <= i < values.len() implies highest(values) >= #[trigger] values[i] by {
            if i < front.len() {
                assert(front[i] == values[i]);
            }
        }
    } else {
        assert(values[0] == highest(values));
    }
}

/// Folding readings one at a time gives the summary of the sequence: the
/// first reading starts it, each further one is observed.
pub proof fn lemma_of_is_fold(values: Seq<int>, value: int)
    ensures
        Summary::of(seq![value]) == Summary::single(value),
        values.len() > 0 ==> Summary::of(values.push(value)) == Summary::of(values).observe(value),
{
    let one = seq![value];
    assert(one.drop_last() =~= Seq::<int>::empty());
    assert(total(one.drop_last()) == 0);
    assert(one.last() == value);
    if values.len() > 0 {
        assert(values.push(value).drop_last() =~= values);
    }
}

/// The summary of real readings is consistent.
pub proof fn lemma_of_consistent(values: Seq<int>)
    requires
        values.len() > 0,
    ensures
        Summary::of(values).consistent(),
    decreases values.len(),
{
    if values.len() > 1 {
        let front = values.drop_last();
        lemma_of_consistent(front);
        assert(front.push(values.last()) =~= values);
        lemma_of_is_fold(front, values.last());
        lemma_observe_consistent(Summary::of(front), values.last());
    } else {
        assert(values.drop_last() =~= Seq::<int>::empty());
        assert(total(values.drop_last()) == 0);
    }
}

/// Observing a reading keeps a summary consistent.
pub proof fn lemma_observe_consistent(s: Summary, value: int)
    requires
        s.consistent(),
    ensures
        s.observe(value).consistent(),
{
    lemma_merge_consistent(s, Summary::single(value));
}

/// Merging keeps summaries consistent.
pub proof fn lemma_merge_consistent(a: Summary, b: Summary)
    requires
        a.consistent(),
        b.consistent(),
    ensures
        a.merge(b).consistent(),
{
    let m = a.merge(b);
    let ca = a.count as int;
    let cb = b.count as int;
    assert(ca * m.min <= ca * a.min) by (nonlinear_arith)
        requires
            ca >= 0,
            m.min <= a.min,
    ;
    assert(cb * m.min <= cb * b.min) by (nonlinear_arith)
        requires
            cb >= 0,
            m.min <= b.min,
    ;
    assert(ca * m.max >= ca * a.max) by (nonlinear_arith)
        requires
            ca >= 0,
            m.max >= a.max,
    ;
    assert(cb * m.max >= cb * b.max) by (nonlinear_arith)
        requires
            cb >= 0,
            m.max >= b.max,
    ;
    assert((ca + cb) * m.min == ca * m.min + cb * m.min) by (nonlinear_arith);
    assert((ca + cb) * m.max == ca * m.max + cb * m.max) by (nonlinear_arith);
}

/// Merging does not depend on which summary comes first.
pub proof fn lemma_merge_commutative(a: Summary, b: Summary)
    ensures
        a.merge(b) == b.merge(a),
{
}

/// Merging three summaries does not depend on which two are merged first.
pub proof fn lemma_merge_associative(a: Summary, b: Summary, c: Summary)
    ensures
        a.merge(b).merge(c) == a.merge(b.merge(c)),
{
}

/// Merging the summaries of two groups of readings gives the summary of the
/// two groups laid end to end.
pub proof fn lemma_merge_of_parts(first: Seq<int>, second: Seq<int>)
    requires
        first.len() > 0,
        second.len() > 0,
    ensures
        Summary::of(first).merge(Summary::of(second)) == Summary::of(first + second),
    decreases second.len(),
{
    let last = second.last();
    let front = second.drop_last();
    assert((first + second).drop_last() =~= first + front);
    assert((first + second).last() == last);
    if second.len() == 1 {
        assert(first + front =~= first);
        assert(total(front) == 0);
    } else {
        lemma_merge_of_parts(first, front);
    }
}

/// Taking one reading out of a sequence lowers the sum by that reading.
proof fn lemma_total_remove(values: Seq<int>, at: int)
    requires
        0 <= at < values.len(),
    ensures
        total(values) == total(values.remove(at)) + values[at],
    decreases values.len(),
{
    if at == values.len() - 1 {
        assert(values.remove(at) =~= values.drop_last());
    } else {
        lemma_total_remove(values.drop_last(), at);
        assert(values.remove(at).drop_last() =~= values.drop_last().remove(at));
        assert(values.remove(at).last() == values.last());
    }
}

/// The sum of a sequence depends only on which readings it holds, and how
/// often, not on their order.
proof fn lemma_total_order_independent(a: Seq<int>, b: Seq<int>)
    requires
        a.to_multiset() == b.to_multiset(),
    ensures
        total(a) == total(b),
    decreases a.len(),
{
    broadcast use vstd::seq_lib::group_to_multiset_ensures;

    if a.len() == 0 {
        assert(b.to_multiset().len() == 0);
        assert(b.len() == 0);
    } else {
        let x = a.last();
        assert(a.to_multiset().count(x) > 0);
        assert(b.contains(x));
        let at = b.index_of(x);
        assert(a.drop_last() == a.remove(a.len() - 1));
        lemma_total_order_independent(a.drop_last(), b.remove(at));
        lemma_total_remove(b, at);
    }
}

/// The summary of a sequence of readings depends only on which readings it
/// holds, and how often, not on the order in which they were seen.
pub proof fn lemma_of_order_independent(a: Seq<int>, b: Seq<int>)
    requires
        a.len() > 0,
        a.to_multiset() == b.to_multiset(),
    ensures
        Summary::of(a) == Summary::of(b),
{
    broadcast use vstd::seq_lib::group_to_multiset_ensures;

    vstd::seq_lib::to_multiset_len(a);
    vstd::seq_lib::to_multiset_len(b);
    {
        lemma_total_order_independent(a, b);
        lemma_lowest_is_least(a);
        lemma_lowest_is_least(b);
        lemma_highest_is_greatest(a);
        lemma_highest_is_greatest(b);
        assert(b.to_multiset().count(lowest(a)) > 0);
        assert(a.to_multiset().count(lowest(b)) > 0);
        assert(b.to_multiset().count(highest(a)) > 0);
        assert(a.to_multiset().count(highest(b)) > 0);
        assert(b.contains(lowest(a)));
        assert(a.contains(lowest(b)));
        assert(b.contains(highest(a)));
        assert(a.contains(highest(b)));
    }
}

/// Merging the summaries of two groups of readings gives the summary of all
/// their readings together, in whatever order these are then folded.
pub proof fn lemma_merge_is_fold_in_any_order(first: Seq<int>, second: Seq<int>, both: Seq<int>)
    requires
        first.len() > 0,
        second.len() > 0,
        both.to_multiset() == first.to_multiset().add(second.to_multiset()),
    ensures
        Summary::of(first).merge(Summary::of(second)) == Summary::of(both),
{
    vstd::seq_lib::lemma_multiset_commutative(first, second);
    lemma_merge_of_parts(first, second);
    lemma_of_order_independent(first + second, both);
}

/// Merging a summary with itself doubles the number and the sum of the
/// readings and leaves the minimum and the maximum as they were.
pub proof fn lemma_merge_with_itself(s: Summary)
    ensures
        s.merge(s).min == s.min,
        s.merge(s).max == s.max,
        s.merge(s).sum == 2 * s.sum,
        s.merge(s).count == 2 * s.count,
{
}

} // verus!
