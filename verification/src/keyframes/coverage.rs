//! Which stretches of a stream have been read.
use crate::num::{larger, max, min, smaller};
use vstd::prelude::*;

verus! {

/// Ranges that are not empty, in order, with a gap between any two.
pub open spec fn ordered(ranges: Seq<(i64, i64)>) -> bool {
    &&& forall|i: int| 0 <= i < ranges.len() ==> (#[trigger] ranges[i]).0 < ranges[i].1
    &&& forall|i: int, j: int|
        0 <= i < j < ranges.len() ==> (#[trigger] ranges[i]).1 < (#[trigger] ranges[j]).0
}

/// `tick` lies in a range of `ranges`.
pub open spec fn covers(ranges: Seq<(i64, i64)>, tick: int) -> bool {
    exists|i: int| 0 <= i < ranges.len() && (#[trigger] ranges[i]).0 <= tick < ranges[i].1
}

/// The ticks of `range` within `[0, limit)`.
pub open spec fn ticks_within(range: (i64, i64), limit: int) -> int {
    larger(0, smaller(range.1 as int, limit) - larger(range.0 as int, 0))
}

/// The ticks of all `ranges` within `[0, limit)`.
pub open spec fn total_within(ranges: Seq<(i64, i64)>, limit: int) -> int
    decreases ranges.len(),
{
    if ranges.len() == 0 {
        0
    } else {
        total_within(ranges.drop_last(), limit) + ticks_within(ranges.last(), limit)
    }
}

/// A set of half-open `[start, end)` tick ranges, kept sorted and merged.
#[derive(Debug)]
pub struct Coverage(pub Vec<(i64, i64)>);

impl Default for Coverage {
    fn default() -> (coverage: Self)
        ensures
            coverage.0@.len() == 0,
            coverage.wf(),
    {
        Coverage(Vec::new())
    }
}

impl Coverage {
    /// The ranges are sorted, disjoint and not touching.
    pub open spec fn wf(&self) -> bool {
        ordered(self.0@)
    }

    /// `tick` is covered.
    pub open spec fn has(&self, tick: int) -> bool {
        covers(self.0@, tick)
    }

    /// Cover `[start, end)` too, merging it with whatever it overlaps or
    /// touches. An empty range changes nothing.
    pub fn add(&mut self, start: i64, end: i64)
        requires
            old(self).wf(),
        ensures
            final(self).wf(),
            forall|tick: int|
                #![trigger final(self).has(tick)]
                #![trigger old(self).has(tick)]
                final(self).has(tick) == (old(self).has(tick) || start <= tick < end),
            end <= start ==> final(self).0@ == old(self).0@,
    {
        if end <= start {
            return;
        }
        let ghost r = self.0@;
        let n: usize = self.0.len();
        let mut merged: Vec<(i64, i64)> = Vec::new();
        let mut i: usize = 0;
        while i < n && self.0[i].1 < start
            invariant
                i <= n == r.len(),
                self.0@ == r,
                merged@ == r.take(i as int),
                forall|j: int| 0 <= j < i ==> (#[trigger] r[j]).1 < start,
            decreases n - i,
        {
            merged.push(self.0[i]);
            i = i + 1;
            assert(r.take(i as int) =~= r.take(i - 1).push(r[i - 1]));
        }
        let kept: usize = i;
        let mut low: i64 = start;
        let mut high: i64 = end;
        while i < n && self.0[i].0 <= high
            invariant
                kept <= i <= n == r.len(),
                self.0@ == r,
                ordered(r),
                low <= start < end <= high,
                forall|j: int| 0 <= j < kept ==> (#[trigger] r[j]).1 < low,
                forall|j: int| kept <= j < n ==> start <= (#[trigger] r[j]).1,
                forall|j: int| kept <= j < i ==> low <= (#[trigger] r[j]).0 && r[j].1 <= high,
                forall|t: int|
                    #![trigger covers(r, t)]
                    low <= t < high ==> covers(r, t) || start <= t < end,
            decreases n - i,
        {
            let (from, to) = self.0[i];
            assert forall|t: int|
                #![trigger covers(r, t)]
                min_i(low, from) <= t < max_i(high, to) implies covers(r, t) || start <= t
                < end by {
                if from <= t < to {
                    assert(r[i as int].0 <= t < r[i as int].1);
                }
            }
            low = min(low, from);
            high = max(high, to);
            i = i + 1;
        }
        let resume: usize = i;
        let ghost head = merged@;
        merged.push((low, high));
        while i < n
            invariant
                resume <= i <= n == r.len(),
                self.0@ == r,
                merged@ == head.push((low, high)) + r.subrange(resume as int, i as int),
            decreases n - i,
        {
            merged.push(self.0[i]);
            i = i + 1;
            assert(r.subrange(resume as int, i as int) =~= r.subrange(resume as int, i - 1).push(
                r[i - 1],
            ));
        }
        proof {
            lemma_spliced(r, merged@, kept as int, resume as int, low, high, start, end);
        }
        self.0 = merged;
    }

    /// Whether `tick` is covered.
    pub fn contains(&self, tick: i64) -> (yes: bool)
        ensures
            yes == self.has(tick as int),
    {
        let mut i: usize = 0;
        while i < self.0.len()
            invariant
                i <= self.0.len(),
                forall|j: int|
                    0 <= j < i ==> !((#[trigger] self.0@[j]).0 <= tick < self.0@[j].1),
            decreases self.0.len() - i,
        {
            if self.0[i].0 <= tick && tick < self.0[i].1 {
                return true;
            }
            i = i + 1;
        }
        false
    }

    /// The end of the covered range containing `tick`.
    pub fn end_of_range(&self, tick: i64) -> (end: Option<i64>)
        requires
            self.wf(),
        ensures
            end is Some == self.has(tick as int),
            end matches Some(end) ==> {
                &&& tick < end
                &&& forall|t: int| tick <= t < end ==> #[trigger] self.has(t)
                &&& !self.has(end as int)
            },
    {
        let mut i: usize = 0;
        while i < self.0.len()
            invariant
                i <= self.0.len(),
                self.wf(),
                forall|j: int|
                    0 <= j < i ==> !((#[trigger] self.0@[j]).0 <= tick < self.0@[j].1),
            decreases self.0.len() - i,
        {
            let (start, end) = self.0[i];
            if start <= tick && tick < end {
                assert forall|t: int| tick <= t < end implies #[trigger] self.has(t) by {
                    assert(self.0@[i as int].0 <= t < self.0@[i as int].1);
                }
                assert forall|j: int| 0 <= j < self.0@.len() implies !((
                #[trigger] self.0@[j]).0 <= end < self.0@[j].1) by {
                    if j < i {
                        assert(self.0@[j].1 < self.0@[i as int].0);
                    } else if j > i {
                        assert(self.0@[i as int].1 < self.0@[j].0);
                    }
                }
                return Some(end);
            }
            i = i + 1;
        }
        None
    }

    /// Total ticks covered within `[0, limit)`.
    pub fn covered_within(&self, limit: i64) -> (ticks: i64)
        requires
            self.wf(),
        ensures
            ticks == total_within(self.0@, limit as int),
            0 <= ticks <= larger(0, limit as int),
    {
        let mut total: i64 = 0;
        let mut i: usize = 0;
        assert(self.0@.take(0).len() == 0);
        while i < self.0.len()
            invariant
                i <= self.0.len(),
                self.wf(),
                total == total_within(self.0@.take(i as int), limit as int),
                0 <= total <= larger(0, limit as int),
                i > 0 ==> total <= larger(0, smaller(self.0@[i - 1].1 as int, limit as int)),
                i == 0 ==> total == 0,
            decreases self.0.len() - i,
        {
            let (start, end) = self.0[i];
            proof {
                assert(self.0@.take(i + 1).drop_last() =~= self.0@.take(i as int));
                if i > 0 {
                    assert(self.0@[i - 1].1 < self.0@[i as int].0);
                }
                assert(self.0@[i as int].0 < self.0@[i as int].1);
            }
            let low: i64 = max(start, 0);
            let high: i64 = min(end, limit);
            if high > low {
                total = total + (high - low);
            }
            i = i + 1;
        }
        assert(self.0@.take(i as int) =~= self.0@);
        total
    }
}

spec fn min_i(a: i64, b: i64) -> int {
    smaller(a as int, b as int)
}

spec fn max_i(a: i64, b: i64) -> int {
    larger(a as int, b as int)
}

/// Replacing the ranges from `kept` up to `resume` by one range that is their
/// union with `[start, end)` keeps the order and covers that union.
proof fn lemma_spliced(
    r: Seq<(i64, i64)>,
    out: Seq<(i64, i64)>,
    kept: int,
    resume: int,
    low: i64,
    high: i64,
    start: i64,
    end: i64,
)
    requires
        ordered(r),
        0 <= kept <= resume <= r.len(),
        out == r.take(kept).push((low, high)) + r.subrange(resume, r.len() as int),
        low <= start < end <= high,
        forall|j: int| 0 <= j < kept ==> (#[trigger] r[j]).1 < low,
        forall|j: int| kept <= j < resume ==> low <= (#[trigger] r[j]).0 && r[j].1 <= high,
        resume < r.len() ==> high < r[resume].0,
        forall|t: int|
            #![trigger covers(r, t)]
            low <= t < high ==> covers(r, t) || start <= t < end,
    ensures
        ordered(out),
        forall|t: int|
            #![trigger covers(out, t)]
            #![trigger covers(r, t)]
            covers(out, t) == (covers(r, t) || start <= t < end),
{
    let shift = resume - kept - 1;
    assert forall|j: int| 0 <= j < out.len() implies #[trigger] out[j] == (if j < kept {
        r[j]
    } else if j == kept {
        (low, high)
    } else {
        r[j + shift]
    }) by {}
    assert forall|j: int| resume <= j < r.len() implies high < (#[trigger] r[j]).0 by {
        if j > resume {
            assert(r[resume].1 < r[j].0);
            assert(r[resume].0 < r[resume].1);
        }
    }
    assert forall|t: int|
        #![trigger covers(out, t)]
        #![trigger covers(r, t)]
        covers(out, t) == (covers(r, t) || start <= t < end) by {
        if covers(out, t) {
            let j = choose|j: int| 0 <= j < out.len() && (#[trigger] out[j]).0 <= t < out[j].1;
            if j < kept {
                assert(r[j].0 <= t < r[j].1);
            } else if j > kept {
                assert(r[j + shift].0 <= t < r[j + shift].1);
            }
        }
        if covers(r, t) {
            let j = choose|j: int| 0 <= j < r.len() && (#[trigger] r[j]).0 <= t < r[j].1;
            if j < kept {
                assert(out[j].0 <= t < out[j].1);
            } else if j < resume {
                assert(out[kept].0 <= t < out[kept].1);
            } else {
                assert(out[j - shift].0 <= t < out[j - shift].1);
            }
        }
        if start <= t < end {
            assert(out[kept].0 <= t < out[kept].1);
        }
    }
}

/// Two sets of ranges that cover the same ticks are the same ranges: what a
/// coverage holds is settled by the ticks it covers.
pub proof fn coverage_is_canonical(a: Seq<(i64, i64)>, b: Seq<(i64, i64)>)
    requires
        ordered(a),
        ordered(b),
        forall|t: int| covers(a, t) == covers(b, t),
    ensures
        a == b,
    decreases a.len(),
{
    if a.len() == 0 {
        if b.len() > 0 {
            assert(covers(b, b[0].0 as int));
            assert(!covers(a, b[0].0 as int));
        }
        assert(a =~= b);
    } else if b.len() == 0 {
        assert(covers(a, a[0].0 as int));
        assert(!covers(b, a[0].0 as int));
    } else {
        let (x, y) = (a.last(), b.last());
        let (m, n) = (a.len() - 1, b.len() - 1);
        // The last covered tick is the same.
        assert(covers(a, x.1 - 1)) by {
            assert(a[m].0 <= x.1 - 1 < a[m].1);
        }
        assert(covers(b, y.1 - 1)) by {
            assert(b[n].0 <= y.1 - 1 < b[n].1);
        }
        lemma_below_last(a, y.1 - 1);
        lemma_below_last(b, x.1 - 1);
        assert(x.1 == y.1);
        // So is the tick just before the last range.
        assert(!covers(a, x.0 - 1)) by {
            if covers(a, x.0 - 1) {
                let j = choose|j: int|
                    0 <= j < a.len() && (#[trigger] a[j]).0 <= x.0 - 1 < a[j].1;
                if j < m {
                    assert(a[j].1 < a[m].0);
                }
            }
        }
        assert(!covers(b, y.0 - 1)) by {
            if covers(b, y.0 - 1) {
                let j = choose|j: int|
                    0 <= j < b.len() && (#[trigger] b[j]).0 <= y.0 - 1 < b[j].1;
                if j < n {
                    assert(b[j].1 < b[n].0);
                }
            }
        }
        if x.0 < y.0 {
            assert(a[m].0 <= y.0 - 1 < a[m].1);
            assert(covers(a, y.0 - 1));
        }
        if y.0 < x.0 {
            assert(b[n].0 <= x.0 - 1 < b[n].1);
            assert(covers(b, x.0 - 1));
        }
        assert(x == y);
        let (a1, b1) = (a.drop_last(), b.drop_last());
        assert forall|t: int| covers(a1, t) == covers(b1, t) by {
            lemma_without_last(a, t);
            lemma_without_last(b, t);
            assert(covers(a, t) == covers(b, t));
        }
        coverage_is_canonical(a1, b1);
        assert(a =~= a1.push(x));
        assert(b =~= b1.push(y));
    }
}

/// A covered tick lies below the end of the last range.
proof fn lemma_below_last(r: Seq<(i64, i64)>, t: int)
    requires
        ordered(r),
        r.len() > 0,
        covers(r, t),
    ensures
        t < r.last().1,
{
    let j = choose|j: int| 0 <= j < r.len() && (#[trigger] r[j]).0 <= t < r[j].1;
    let m = r.len() - 1;
    if j < m {
        assert(r[j].1 < r[m].0);
        assert(r[m].0 < r[m].1);
    }
}

/// Without its last range, a set covers what it covered outside that range.
proof fn lemma_without_last(r: Seq<(i64, i64)>, t: int)
    requires
        ordered(r),
        r.len() > 0,
    ensures
        covers(r.drop_last(), t) == (covers(r, t) && !(r.last().0 <= t < r.last().1)),
        ordered(r.drop_last()),
{
    let m = r.len() - 1;
    let short = r.drop_last();
    if covers(short, t) {
        let j = choose|j: int| 0 <= j < short.len() && (#[trigger] short[j]).0 <= t < short[j].1;
        assert(r[j].0 <= t < r[j].1);
        assert(r[j].1 < r[m].0);
    }
    if covers(r, t) && !(r.last().0 <= t < r.last().1) {
        let j = choose|j: int| 0 <= j < r.len() && (#[trigger] r[j]).0 <= t < r[j].1;
        assert(short[j].0 <= t < short[j].1);
    }
}

} // verus!
