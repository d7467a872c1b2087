use vstd::prelude::*;

verus! {

/// A half-open span of time `[start, end)`.
#[derive(Clone, Copy, Debug, PartialEq, Eq, Structural)]
pub struct Interval {
    pub start: i64,
    pub end: i64,
}

impl Interval {
    pub open spec fn contains_spec(self, t: int) -> bool {
        self.start <= t < self.end
    }

    pub fn contains(&self, t: i64) -> (r: bool)
        ensures
            r == self.contains_spec(t as int),
    {
        self.start <= t && t < self.end
    }
}

/// Whether `t` lies in `[lo, hi)`.
pub open spec fn between(lo: int, hi: int, t: int) -> bool {
    lo <= t < hi
}

/// Whether some span of `s` contains `t`.
pub open spec fn covered(s: Seq<Interval>, t: int) -> bool {
    exists|k: int| 0 <= k < s.len() && (#[trigger] s[k]).contains_spec(t)
}

/// Spans are non-empty, sorted, and separated by a gap (touching spans are merged).
pub open spec fn spans_wf(s: Seq<Interval>) -> bool {
    &&& forall|k: int| 0 <= k < s.len() ==> (#[trigger] s[k]).start < s[k].end
    &&& forall|j: int, k: int| 0 <= j < k < s.len() ==> (#[trigger] s[j]).end < (#[trigger] s[k]).start
}

/// A set of points on the time line, kept as sorted disjoint spans.
#[derive(Clone, Debug)]
pub struct IntervalSet {
    intervals: Vec<Interval>,
}

impl IntervalSet {
    pub closed spec fn spans(&self) -> Seq<Interval> {
        self.intervals@
    }

    pub open spec fn wf(&self) -> bool {
        spans_wf(self.spans())
    }

    /// Whether the set holds the point `t`.
    pub open spec fn covers(&self, t: int) -> bool {
        covered(self.spans(), t)
    }

    pub fn new() -> (r: Self)
        ensures
            r.wf(),
            r.spans().len() == 0,
            forall|t: int| !r.covers(t),
    {
        IntervalSet { intervals: Vec::new() }
    }

    /// The spans of the set, sorted and disjoint.
    pub fn intervals(&self) -> (r: &Vec<Interval>)
        ensures
            r@ == self.spans(),
    {
        &self.intervals
    }

    /// Adds the points `[start, end)`, merging with every span it overlaps or touches.
    pub fn add(&mut self, start: i64, end: i64)
        requires
            old(self).wf(),
        ensures
            final(self).wf(),
            forall|t: int| #[trigger]
                final(self).covers(t) <==> (old(self).covers(t) || start <= t < end),
            final(self).spans().len() <= old(self).spans().len() + 1,
    {
        if start >= end {
            return;
        }
        let ghost ivs = self.intervals@;
        let n = self.intervals.len();
        let mut out: Vec<Interval> = Vec::new();
        let mut i: usize = 0;
        while i < n && self.intervals[i].end < start
            invariant
                0 <= i <= n,
                n == ivs.len(),
                self.intervals@ == ivs,
                spans_wf(ivs),
                out@ == ivs.subrange(0, i as int),
                forall|k: int| 0 <= k < i ==> (#[trigger] ivs[k]).end < start,
            decreases n - i,
        {
            out.push(self.intervals[i]);
            i += 1;
        }
        let i1 = i;
        let mut s = start;
        let mut e = end;
        while i < n && self.intervals[i].start <= e
            invariant
                i1 <= i <= n,
                n == ivs.len(),
                self.intervals@ == ivs,
                spans_wf(ivs),
                out@ == ivs.subrange(0, i1 as int),
                i1 < n ==> ivs[i1 as int].end >= start,
                s <= start,
                end <= e,
                forall|k: int| 0 <= k < i1 ==> (#[trigger] ivs[k]).end < s,
                forall|t: int| #[trigger]
                    between(s as int, e as int, t) <==> (start <= t < end || exists|k: int|
                        i1 <= k < i && (#[trigger] ivs[k]).contains_spec(t)),
            decreases n - i,
        {
            let iv = self.intervals[i];
            proof {
                if i > i1 {
                    assert(ivs[i1 as int].end < ivs[i as int].start);
                }
                assert(iv.end >= s);
                let ns: int = if iv.start < s { iv.start as int } else { s as int };
                let ne: int = if iv.end > e { iv.end as int } else { e as int };
                assert forall|t: int| #[trigger]
                    between(ns, ne, t) <==> (start <= t < end || exists|k: int|
                        i1 <= k < i + 1 && (#[trigger] ivs[k]).contains_spec(t)) by {
                    if exists|k: int| i1 <= k < i + 1 && (#[trigger] ivs[k]).contains_spec(t) {
                        let k = choose|k: int| i1 <= k < i + 1 && (#[trigger] ivs[k]).contains_spec(t);
                        if k < i {
                            assert(between(s as int, e as int, t));
                        }
                    }
                    if between(ns, ne, t) {
                        if !between(s as int, e as int, t) {
                            assert(ivs[i as int].contains_spec(t));
                        }
                    }
                    if start <= t < end {
                        assert(between(s as int, e as int, t));
                    }
                }
                assert forall|k: int| 0 <= k < i1 implies (#[trigger] ivs[k]).end < (if iv.start
                    < s {
                    iv.start
                } else {
                    s
                }) by {
                    assert(ivs[k].end < ivs[i as int].start);
                }
            }
            if iv.start < s {
                s = iv.start;
            }
            if iv.end > e {
                e = iv.end;
            }
            i += 1;
        }
        let i2 = i;
        let merged = Interval { start: s, end: e };
        out.push(merged);
        while i < n
            invariant
                i2 <= i <= n,
                n == ivs.len(),
                self.intervals@ == ivs,
                out@ == ivs.subrange(0, i1 as int).push(merged) + ivs.subrange(i2 as int, i as int),
            decreases n - i,
        {
            out.push(self.intervals[i]);
            i += 1;
        }
        proof {
            let o = out@;
            assert(o.len() == i1 + 1 + (n - i2));
            assert(forall|k: int| 0 <= k < i1 ==> o[k] == ivs[k]);
            assert(o[i1 as int] == merged);
            assert(forall|k: int| i1 < k < o.len() ==> o[k] == ivs[k - i1 - 1 + i2]);
            assert(i2 < n ==> ivs[i2 as int].start > e);
            assert forall|k: int| 0 <= k < o.len() implies (#[trigger] o[k]).start < o[k].end by {
                if k < i1 {
                } else if k == i1 {
                } else {
                    assert(o[k] == ivs[k - i1 - 1 + i2]);
                }
            }
            assert forall|j: int, k: int| 0 <= j < k < o.len() implies (#[trigger] o[j]).end < (
            #[trigger] o[k]).start by {
                if k <= i1 {
                } else if j < i1 {
                    assert(o[k] == ivs[k - i1 - 1 + i2]);
                    assert(ivs[j].end < ivs[k - i1 - 1 + i2].start);
                } else if j == i1 {
                    assert(o[k] == ivs[k - i1 - 1 + i2]);
                    if k - i1 - 1 + i2 > i2 {
                        assert(ivs[i2 as int].end < ivs[k - i1 - 1 + i2].start);
                    }
                } else {
                    assert(o[j] == ivs[j - i1 - 1 + i2]);
                    assert(o[k] == ivs[k - i1 - 1 + i2]);
                }
            }
            assert forall|t: int| covered(o, t) <==> (covered(ivs, t) || start <= t < end) by {
                if covered(o, t) {
                    let k = choose|k: int| 0 <= k < o.len() && (#[trigger] o[k]).contains_spec(t);
                    if k < i1 {
                        assert(ivs[k].contains_spec(t));
                    } else if k == i1 {
                        assert(between(s as int, e as int, t));
                        if !(start <= t < end) {
                            let kk = choose|kk: int|
                                i1 <= kk < i2 && (#[trigger] ivs[kk]).contains_spec(t);
                            assert(ivs[kk].contains_spec(t));
                        }
                    } else {
                        assert(o[k] == ivs[k - i1 - 1 + i2]);
                        assert(ivs[k - i1 - 1 + i2].contains_spec(t));
                    }
                }
                if covered(ivs, t) {
                    let k = choose|k: int| 0 <= k < ivs.len() && (#[trigger] ivs[k]).contains_spec(t);
                    if k < i1 {
                        assert(o[k].contains_spec(t));
                    } else if k < i2 {
                        assert(between(s as int, e as int, t));
                        assert(o[i1 as int].contains_spec(t));
                    } else {
                        assert(o[k - i2 + i1 + 1] == ivs[k]);
                        assert(o[k - i2 + i1 + 1].contains_spec(t));
                    }
                }
                if start <= t < end {
                    assert(between(s as int, e as int, t));
                    assert(o[i1 as int].contains_spec(t));
                }
            }
        }
        self.intervals = out;
    }

    /// The set covering every span of `spans`.
    pub fn from_spans(spans: &Vec<Interval>) -> (r: IntervalSet)
        ensures
            r.wf(),
            forall|t: int| #[trigger]
                r.covers(t) <==> covered(spans@, t),
            r.spans().len() <= spans@.len(),
    {
        let mut set = IntervalSet::new();
        let mut i: usize = 0;
        while i < spans.len()
            invariant
                0 <= i <= spans@.len(),
                set.wf(),
                set.spans().len() <= i,
                forall|t: int| #[trigger] set.covers(t) <==> covered(spans@.subrange(0, i as int), t),
            decreases spans@.len() - i,
        {
            let iv = spans[i];
            let ghost before = set;
            set.add(iv.start, iv.end);
            assert forall|t: int| #[trigger] set.covers(t) <==> covered(spans@.subrange(0, i + 1), t) by {
                let pre = spans@.subrange(0, i as int);
                let next = spans@.subrange(0, i + 1);
                if covered(next, t) {
                    let k = choose|k: int| 0 <= k < next.len() && (#[trigger] next[k]).contains_spec(t);
                    if k < i {
                        assert(pre[k] == next[k]);
                        assert(covered(pre, t));
                    }
                }
                if covered(pre, t) {
                    let k = choose|k: int| 0 <= k < pre.len() && (#[trigger] pre[k]).contains_spec(t);
                    assert(next[k] == pre[k]);
                }
                if iv.contains_spec(t) {
                    assert(next[i as int] == iv);
                }
            }
            i += 1;
        }
        assert(spans@.subrange(0, spans@.len() as int) =~= spans@);
        set
    }

    /// The span of the set that holds `time`, if any.
    pub fn find(&self, time: i64) -> (r: Option<Interval>)
        ensures
            r is Some <==> self.covers(time as int),
            r matches Some(iv) ==> iv.contains_spec(time as int) && self.spans().contains(iv),
    {
        let mut i: usize = 0;
        while i < self.intervals.len()
            invariant
                0 <= i <= self.intervals@.len(),
                forall|k: int| 0 <= k < i ==> !(#[trigger] self.intervals@[k]).contains_spec(
                    time as int,
                ),
            decreases self.intervals@.len() - i,
        {
            if self.intervals[i].contains(time) {
                return Some(self.intervals[i]);
            }
            i += 1;
        }
        None
    }
}

} // verus!
