//! Half-open byte ranges and the ordered set of ranges handed out of one
//! address space.

use vstd::prelude::*;
use crate::error::RegionError;

verus! {

/// The half-open range of bytes `[start, end)`.
#[derive(Clone, Copy, PartialEq, Eq, Structural, Debug)]
pub struct ByteRange {
    pub start: usize,
    pub end: usize,
}

impl ByteRange {
    /// The two ranges have a byte in common.
    pub open spec fn overlaps(self, other: ByteRange) -> bool {
        self.start < other.end && other.start < self.end
    }

    /// The range is non-empty and lies within `[0, limit)`.
    pub open spec fn fits_within(self, limit: usize) -> bool {
        self.start < self.end <= limit
    }
}

/// Every range is non-empty and within `[0, limit)`, and each range ends
/// before the next one starts: ascending by start and pairwise disjoint.
pub open spec fn well_placed(ranges: Seq<ByteRange>, limit: usize) -> bool {
    &&& forall|i: int| 0 <= i < ranges.len() ==> (#[trigger] ranges[i]).fits_within(limit)
    &&& forall|i: int, j: int|
        0 <= i < j < ranges.len() ==> (#[trigger] ranges[i]).end <= (#[trigger] ranges[j]).start
}

/// Some range of `ranges` has a byte in common with `range`.
pub open spec fn overlaps_any(ranges: Seq<ByteRange>, range: ByteRange) -> bool {
    exists|i: int| 0 <= i < ranges.len() && (#[trigger] ranges[i]).overlaps(range)
}

/// The number of ranges that start below `at`.
pub open spec fn starts_below(ranges: Seq<ByteRange>, at: usize) -> int
    decreases ranges.len(),
{
    if ranges.len() == 0 {
        0
    } else {
        starts_below(ranges.drop_last(), at) + if ranges.last().start < at {
            1int
        } else {
            0int
        }
    }
}

/// `ranges` with `range` put where ascending order by start wants it.
pub open spec fn with_range(ranges: Seq<ByteRange>, range: ByteRange) -> Seq<ByteRange> {
    ranges.insert(starts_below(ranges, range.start), range)
}

/// What asking for `range` comes to, when `ranges` are handed out of
/// `limit` bytes: a range that is empty or out of bounds is invalid, one
/// that touches a range handed out overlaps, any other is granted.
pub open spec fn insert_outcome(ranges: Seq<ByteRange>, limit: usize, range: ByteRange) -> Result<
    (),
    RegionError,
> {
    if !range.fits_within(limit) {
        Err(RegionError::InvalidRange)
    } else if overlaps_any(ranges, range) {
        Err(RegionError::Overlap)
    } else {
        Ok(())
    }
}

/// `size` bytes starting at `start` lie inside `[0, limit)` and touch none
/// of `ranges`.
pub open spec fn is_free(ranges: Seq<ByteRange>, limit: usize, start: int, size: int) -> bool {
    &&& 0 <= start
    &&& start + size <= limit
    &&& forall|i: int|
        0 <= i < ranges.len() ==> start + size <= (#[trigger] ranges[i]).start || ranges[i].end
            <= start
}

/// `start` is the lowest offset at which `size` bytes are free.
pub open spec fn is_first_fit(ranges: Seq<ByteRange>, limit: usize, start: int, size: int) -> bool {
    &&& is_free(ranges, limit, start, size)
    &&& forall|lower: int| 0 <= lower < start ==> !is_free(ranges, limit, lower, size)
}

/// If the first `k` ranges start below `at` and the others do not, then
/// `k` ranges start below `at`.
pub proof fn lemma_starts_below(ranges: Seq<ByteRange>, at: usize, k: int)
    requires
        0 <= k <= ranges.len(),
        forall|j: int| 0 <= j < k ==> (#[trigger] ranges[j]).start < at,
        forall|j: int| k <= j < ranges.len() ==> (#[trigger] ranges[j]).start >= at,
    ensures
        starts_below(ranges, at) == k,
    decreases ranges.len(),
{
    if ranges.len() > 0 {
        let front = ranges.drop_last();
        if k == ranges.len() {
            lemma_starts_below(front, at, k - 1);
        } else {
            lemma_starts_below(front, at, k);
        }
    }
}

/// The ranges that start below `at` are no more than there are ranges.
pub proof fn lemma_starts_below_bounds(ranges: Seq<ByteRange>, at: usize)
    ensures
        0 <= starts_below(ranges, at) <= ranges.len(),
    decreases ranges.len(),
{
    if ranges.len() > 0 {
        lemma_starts_below_bounds(ranges.drop_last(), at);
    }
}

/// In an ordered, disjoint sequence the ranges that start below `at` come
/// first and the others after them.
pub proof fn lemma_starts_below_splits(ranges: Seq<ByteRange>, limit: usize, at: usize)
    requires
        well_placed(ranges, limit),
    ensures
        forall|j: int| 0 <= j < starts_below(ranges, at) ==> (#[trigger] ranges[j]).start < at,
        forall|j: int|
            starts_below(ranges, at) <= j < ranges.len() ==> (#[trigger] ranges[j]).start >= at,
    decreases ranges.len(),
{
    lemma_starts_below_bounds(ranges, at);
    if ranges.len() > 0 {
        let front = ranges.drop_last();
        lemma_starts_below_bounds(front, at);
        assert(well_placed(front, limit)) by {
            assert forall|j: int| 0 <= j < front.len() implies #[trigger] front[j]
                == ranges[j] by {}
        }
        lemma_starts_below_splits(front, limit, at);
        let k = starts_below(front, at);
        if ranges.last().start < at {
            assert forall|j: int| 0 <= j < ranges.len() implies (#[trigger] ranges[j]).start
                < at by {
                if j < ranges.len() - 1 {
                    assert(ranges[j].end <= ranges[ranges.len() - 1].start);
                    assert(ranges[j].fits_within(limit));
                }
            }
            assert forall|j: int| 0 <= j < front.len() implies (#[trigger] front[j]).start
                < at by {
                assert(front[j] == ranges[j]);
            }
            lemma_starts_below(front, at, front.len() as int);
        } else {
            assert forall|j: int| 0 <= j < k implies (#[trigger] ranges[j]).start < at by {
                assert(front[j] == ranges[j]);
            }
            assert forall|j: int| k <= j < ranges.len() implies (#[trigger] ranges[j]).start
                >= at by {
                if j < ranges.len() - 1 {
                    assert(front[j] == ranges[j]);
                }
            }
        }
    }
}

/// Two different ranges of an ordered, disjoint sequence are non-empty, in
/// bounds and have no byte in common.
pub proof fn lemma_recorded_apart(ranges: Seq<ByteRange>, limit: usize, a: ByteRange, b: ByteRange)
    requires
        well_placed(ranges, limit),
        ranges.contains(a),
        ranges.contains(b),
        a != b,
    ensures
        a.fits_within(limit),
        b.fits_within(limit),
        !a.overlaps(b),
        a.end <= b.start || b.end <= a.start,
{
    let i = choose|i: int| 0 <= i < ranges.len() && ranges[i] == a;
    let j = choose|j: int| 0 <= j < ranges.len() && ranges[j] == b;
    assert(ranges[i].fits_within(limit));
    assert(ranges[j].fits_within(limit));
    if i < j {
        assert(ranges[i].end <= ranges[j].start);
    } else {
        assert(ranges[j].end <= ranges[i].start);
    }
}

/// Handing out a range that is valid and free keeps the ranges in order,
/// disjoint and in bounds; the new range is among them, and so is every
/// range that was.
pub proof fn lemma_with_range(ranges: Seq<ByteRange>, limit: usize, range: ByteRange)
    requires
        well_placed(ranges, limit),
        insert_outcome(ranges, limit, range) is Ok,
    ensures
        well_placed(with_range(ranges, range), limit),
        with_range(ranges, range).len() == ranges.len() + 1,
        with_range(ranges, range).contains(range),
        forall|other: ByteRange|
            ranges.contains(other) ==> #[trigger] with_range(ranges, range).contains(other),
        forall|other: ByteRange|
            #[trigger] with_range(ranges, range).contains(other) ==> other == range
                || ranges.contains(other),
{
    let k = starts_below(ranges, range.start);
    let after = with_range(ranges, range);
    lemma_starts_below_bounds(ranges, range.start);
    lemma_starts_below_splits(ranges, limit, range.start);
    assert forall|j: int| 0 <= j < ranges.len() implies if j < k {
        (#[trigger] ranges[j]).end <= range.start
    } else {
        range.end <= ranges[j].start
    } by {
        assert(!ranges[j].overlaps(range));
        assert(ranges[j].fits_within(limit));
    }
    assert forall|i: int| 0 <= i < after.len() implies (#[trigger] after[i]).fits_within(
        limit,
    ) by {
        if i < k {
            assert(after[i] == ranges[i]);
        } else if i > k {
            assert(after[i] == ranges[i - 1]);
        }
    }
    assert forall|i: int, j: int| 0 <= i < j < after.len() implies (#[trigger] after[i]).end <= (
    #[trigger] after[j]).start by {
        let a = if i < k {
            ranges[i]
        } else if i == k {
            range
        } else {
            ranges[i - 1]
        };
        let b = if j < k {
            ranges[j]
        } else if j == k {
            range
        } else {
            ranges[j - 1]
        };
        assert(after[i] == a && after[j] == b);
    }
    assert(after[k] == range);
    assert forall|other: ByteRange| ranges.contains(other) implies #[trigger] after.contains(
        other,
    ) by {
        let j = choose|j: int| 0 <= j < ranges.len() && ranges[j] == other;
        if j < k {
            assert(after[j] == other);
        } else {
            assert(after[j + 1] == other);
        }
    }
    assert forall|other: ByteRange| #[trigger] after.contains(other) implies other == range
        || ranges.contains(other) by {
        let i = choose|i: int| 0 <= i < after.len() && after[i] == other;
        if i < k {
            assert(ranges[i] == other);
        } else if i > k {
            assert(ranges[i - 1] == other);
        }
    }
}

/// Taking a range back leaves the others in order, disjoint and in bounds:
/// the range is gone, and every other range is still there.
pub proof fn lemma_without_range(ranges: Seq<ByteRange>, limit: usize, range: ByteRange)
    requires
        well_placed(ranges, limit),
    ensures
        well_placed(ranges.remove_value(range), limit),
        !ranges.remove_value(range).contains(range),
        forall|other: ByteRange|
            other != range && ranges.contains(other) ==> #[trigger] ranges.remove_value(
                range,
            ).contains(other),
        forall|other: ByteRange|
            #[trigger] ranges.remove_value(range).contains(other) ==> ranges.contains(other),
        ranges.contains(range) ==> ranges.remove_value(range).len() == ranges.len() - 1,
        !ranges.contains(range) ==> ranges.remove_value(range) == ranges,
{
    ranges.index_of_first_ensures(range);
    let after = ranges.remove_value(range);
    match ranges.index_of_first(range) {
        None => {},
        Some(k) => {
            assert forall|i: int| 0 <= i < after.len() implies #[trigger] after[i] == if i < k {
                ranges[i]
            } else {
                ranges[i + 1]
            } by {}
            assert forall|i: int| 0 <= i < after.len() implies (#[trigger] after[i]).fits_within(
                limit,
            ) by {
                if i < k {
                    assert(ranges[i].fits_within(limit));
                } else {
                    assert(ranges[i + 1].fits_within(limit));
                }
            }
            assert forall|i: int, j: int| 0 <= i < j < after.len() implies (
            #[trigger] after[i]).end <= (#[trigger] after[j]).start by {
                let a = if i < k {
                    i
                } else {
                    i + 1
                };
                let b = if j < k {
                    j
                } else {
                    j + 1
                };
                assert(ranges[a].end <= ranges[b].start);
            }
            assert forall|i: int| 0 <= i < after.len() implies #[trigger] after[i] != range by {
                let a = if i < k {
                    i
                } else {
                    i + 1
                };
                if a < k {
                    assert(ranges[a].end <= ranges[k].start);
                } else {
                    assert(ranges[k].end <= ranges[a].start);
                }
                assert(ranges[k].fits_within(limit));
                assert(ranges[a].fits_within(limit));
            }
            assert forall|other: ByteRange|
                other != range && ranges.contains(other) implies #[trigger] after.contains(
                other,
            ) by {
                let j = choose|j: int| 0 <= j < ranges.len() && ranges[j] == other;
                if j < k {
                    assert(after[j] == other);
                } else {
                    assert(after[j - 1] == other);
                }
            }
            assert forall|other: ByteRange| #[trigger] after.contains(other) implies ranges.contains(
                other,
            ) by {
                let i = choose|i: int| 0 <= i < after.len() && after[i] == other;
                if i < k {
                    assert(ranges[i] == other);
                } else {
                    assert(ranges[i + 1] == other);
                }
            }
        },
    }
}

/// Taking back the range that was handed out last leaves exactly the
/// ranges there were before it was handed out.
pub proof fn lemma_with_then_without(ranges: Seq<ByteRange>, limit: usize, range: ByteRange)
    requires
        well_placed(ranges, limit),
        insert_outcome(ranges, limit, range) is Ok,
    ensures
        with_range(ranges, range).remove_value(range) == ranges,
{
    let k = starts_below(ranges, range.start);
    let after = with_range(ranges, range);
    lemma_starts_below_bounds(ranges, range.start);
    after.index_of_first_ensures(range);
    assert(after[k] == range);
    let first = after.index_of_first(range)->Some_0;
    if first < k {
        assert(after[first] == ranges[first]);
        assert(ranges[first].overlaps(range));
    }
    assert(after.remove(k) =~= ranges);
}

/// The ordered set of ranges currently handed out of an address space of
/// `limit` bytes.
#[derive(Debug)]
pub struct RangeSet {
    limit: usize,
    ranges: Vec<ByteRange>,
}

impl View for RangeSet {
    type V = Seq<ByteRange>;

    /// The ranges handed out, ascending by start.
    closed spec fn view(&self) -> Seq<ByteRange> {
        self.ranges@
    }
}

impl RangeSet {
    /// The size in bytes of the address space the ranges are taken from.
    pub closed spec fn limit_spec(&self) -> usize {
        self.limit
    }

    /// The ranges are in order, disjoint and inside the address space.
    pub open spec fn wf(&self) -> bool {
        well_placed(self@, self.limit_spec())
    }

    #[verifier::type_invariant]
    spec fn inv(&self) -> bool {
        self.wf()
    }

    /// An address space of `limit` bytes with nothing handed out.
    pub fn new(limit: usize) -> (s: Self)
        ensures
            s.wf(),
            s.limit_spec() == limit,
            s@ == Seq::<ByteRange>::empty(),
    {
        RangeSet { limit, ranges: Vec::new() }
    }

    /// The size in bytes of the address space.
    pub fn limit(&self) -> (limit: usize)
        ensures
            limit == self.limit_spec(),
    {
        self.limit
    }

    /// The number of ranges handed out.
    pub fn len(&self) -> (n: usize)
        ensures
            n == self@.len(),
    {
        self.ranges.len()
    }

    /// Whether nothing is handed out.
    pub fn is_empty(&self) -> (empty: bool)
        ensures
            empty <==> self@.len() == 0,
    {
        self.ranges.len() == 0
    }

    /// A copy of the ranges handed out, ascending by start.
    pub fn ranges(&self) -> (out: Vec<ByteRange>)
        ensures
            out@ == self@,
    {
        let mut out: Vec<ByteRange> = Vec::new();
        let n: usize = self.ranges.len();
        let mut i: usize = 0;
        while i < n
            invariant
                n == self.ranges@.len(),
                i <= n,
                out@ == self.ranges@.subrange(0, i as int),
            decreases n - i,
        {
            out.push(self.ranges[i]);
            i += 1;
        }
        out
    }

    /// Hands out `range`, provided it is non-empty, inside the address
    /// space and free. The check and the insertion are one step; a refused
    /// request changes nothing.
    pub fn insert(&mut self, range: ByteRange) -> (res: Result<(), RegionError>)
        ensures
            final(self).wf(),
            final(self).limit_spec() == old(self).limit_spec(),
            res == insert_outcome(old(self)@, old(self).limit_spec(), range),
            res is Ok ==> final(self)@ == with_range(old(self)@, range),
            res is Err ==> final(self)@ == old(self)@,
    {
        proof {
            use_type_invariant(&*self);
        }
        if range.start >= range.end || range.end > self.limit {
            return Err(RegionError::InvalidRange);
        }
        let n: usize = self.ranges.len();
        let mut at: usize = 0;
        while at < n && self.ranges[at].end <= range.start
            invariant
                n == self.ranges@.len(),
                at <= n,
                well_placed(self.ranges@, self.limit),
                forall|j: int| 0 <= j < at ==> (#[trigger] self.ranges@[j]).end <= range.start,
            decreases n - at,
        {
            at += 1;
        }
        if at < n && self.ranges[at].start < range.end {
            assert(self.ranges@[at as int].overlaps(range));
            return Err(RegionError::Overlap);
        }
        proof {
            let before = self.ranges@;
            assert forall|j: int| 0 <= j < before.len() implies !(#[trigger] before[j]).overlaps(
                range,
            ) by {
                if j > at {
                    assert(before[at as int].end <= before[j].start);
                }
            }
            assert forall|j: int| at <= j < before.len() implies (#[trigger] before[j]).start
                >= range.start by {
                if j > at {
                    assert(before[at as int].end <= before[j].start);
                }
            }
            lemma_starts_below(before, range.start, at as int);
        }
        let mut ranges: Vec<ByteRange> = Vec::new();
        std::mem::swap(&mut ranges, &mut self.ranges);
        ranges.insert(at, range);
        self.ranges = ranges;
        Ok(())
    }

    /// Proposes the lowest free gap of `size` bytes: the gaps are visited in
    /// ascending order, first the ones in front of each range handed out,
    /// then the one behind the last. A gap of no bytes is found at offset
    /// zero. Nothing is handed out by this call.
    pub fn first_fit(&self, size: usize) -> (gap: Option<ByteRange>)
        ensures
            match gap {
                Some(range) => {
                    &&& range.end == range.start + size
                    &&& is_first_fit(self@, self.limit_spec(), range.start as int, size as int)
                },
                None => forall|start: int|
                    !#[trigger] is_free(self@, self.limit_spec(), start, size as int),
            },
    {
        proof {
            use_type_invariant(self);
        }
        let n: usize = self.ranges.len();
        let mut cursor: usize = 0;
        let mut i: usize = 0;
        while i < n
            invariant
                n == self.ranges@.len(),
                i <= n,
                well_placed(self.ranges@, self.limit),
                cursor <= self.limit,
                i == 0 ==> cursor == 0,
                i > 0 ==> cursor == self.ranges@[i - 1].end,
                forall|lower: int|
                    0 <= lower < cursor ==> !#[trigger] is_free(
                        self.ranges@,
                        self.limit,
                        lower,
                        size as int,
                    ),
            decreases n - i,
        {
            let taken: ByteRange = self.ranges[i];
            proof {
                if i > 0 {
                    assert(self.ranges@[i - 1].end <= self.ranges@[i as int].start);
                }
            }
            if size <= taken.start - cursor {
                proof {
                    let ranges = self.ranges@;
                    assert forall|j: int| 0 <= j < ranges.len() implies cursor + size <= (
                    #[trigger] ranges[j]).start || ranges[j].end <= cursor by {
                        if j < i - 1 {
                            assert(ranges[j].end <= ranges[i - 1].start);
                            assert(ranges[i - 1].fits_within(self.limit));
                        } else if j > i {
                            assert(ranges[i as int].end <= ranges[j].start);
                            assert(ranges[i as int].fits_within(self.limit));
                        }
                    }
                    assert(taken.fits_within(self.limit));
                }
                return Some(ByteRange { start: cursor, end: cursor + size });
            }
            proof {
                let ranges = self.ranges@;
                assert(taken.fits_within(self.limit));
                assert forall|lower: int| cursor <= lower < taken.end implies !#[trigger] is_free(
                    ranges,
                    self.limit,
                    lower,
                    size as int,
                ) by {
                    assert(!(lower + size <= ranges[i as int].start || ranges[i as int].end
                        <= lower));
                }
            }
            cursor = taken.end;
            i += 1;
        }
        if size <= self.limit - cursor {
            proof {
                let ranges = self.ranges@;
                assert forall|j: int| 0 <= j < ranges.len() implies cursor + size <= (
                #[trigger] ranges[j]).start || ranges[j].end <= cursor by {
                    if j < n - 1 {
                        assert(ranges[j].end <= ranges[n - 1].start);
                        assert(ranges[n - 1].fits_within(self.limit));
                    }
                }
            }
            Some(ByteRange { start: cursor, end: cursor + size })
        } else {
            None
        }
    }

    /// Takes `range` back: the entry that equals it exactly is removed.
    /// Returns whether there was such an entry; if not, nothing changes.
    pub fn remove(&mut self, range: ByteRange) -> (found: bool)
        ensures
            final(self).wf(),
            final(self).limit_spec() == old(self).limit_spec(),
            found == old(self)@.contains(range),
            final(self)@ == old(self)@.remove_value(range),
    {
        proof {
            use_type_invariant(&*self);
            self.ranges@.index_of_first_ensures(range);
        }
        let n: usize = self.ranges.len();
        let mut at: usize = 0;
        while at < n && !(self.ranges[at].start == range.start && self.ranges[at].end == range.end)
            invariant
                n == self.ranges@.len(),
                at <= n,
                forall|j: int| 0 <= j < at ==> self.ranges@[j] != range,
            decreases n - at,
        {
            at += 1;
        }
        if at == n {
            return false;
        }
        assert(self.ranges@[at as int] == range);
        let mut ranges: Vec<ByteRange> = Vec::new();
        std::mem::swap(&mut ranges, &mut self.ranges);
        ranges.remove(at);
        self.ranges = ranges;
        true
    }
}

} // verus!
