//! A fixed-capacity set of disjoint, non-touching inclusive `u64` ranges,
//! used to model usable physical memory, with an alignment-aware allocator.

use vstd::prelude::*;

verus! {

/// Maximum number of ranges a `RangeSet` can hold
pub const MAX_RANGES: usize = 256;

/// Errors associated with `RangeSet` operations
#[derive(Debug, Clone, Copy, PartialEq, Eq, Structural)]
pub enum Error {
    /// An index to a range entry was out of bounds
    InvalidIndex,

    /// A range was specified with an invalid shape (start > end)
    InvalidRange,

    /// There was no more space in the fixed allocation for ranges
    OutOfEntries,

    /// No free range has the size and alignment requested
    OutOfMemory,

    /// Zero size allocations are not supported
    ZeroSizeAllocation,

    /// The alignment specified was not a power of two, or was zero
    InvalidAlignment,
}

/// An inclusive range `[start, end]`
#[derive(Clone, Copy, Debug, PartialEq, Eq, Structural)]
pub struct Range {
    /// Start of the range (inclusive)
    pub start: u64,

    /// End of the range (inclusive)
    pub end: u64,
}

/// `x` lies inside `r`
pub open spec fn holds(r: Range, x: int) -> bool {
    r.start <= x <= r.end
}

/// The points of the inclusive interval `[start, end]`
pub open spec fn interval(start: int, end: int) -> Set<int> {
    Set::new(|x: int| start <= x <= end)
}

/// The points of `r`
pub open spec fn points(r: Range) -> Set<int> {
    interval(r.start as int, r.end as int)
}

/// Two ranges overlap or are adjacent (one ends right before the other starts)
pub open spec fn touches(a: Range, b: Range) -> bool {
    a.start <= b.end + 1 && b.start <= a.end + 1
}

/// Two ranges share at least one point
pub open spec fn intersects(a: Range, b: Range) -> bool {
    a.start <= b.end && b.start <= a.end
}

/// The points covered by any of the ranges in `s`
pub open spec fn covered(s: Seq<Range>) -> Set<int> {
    Set::new(|x: int| exists|i: int| 0 <= i < s.len() && #[trigger] holds(s[i], x))
}

/// Every range is well shaped, and no two of them touch
pub open spec fn ranges_wf(s: Seq<Range>) -> bool {
    &&& s.len() <= MAX_RANGES
    &&& separated(s)
}

/// Every range is well shaped, and no two of them touch, whatever their
/// number
pub open spec fn separated(s: Seq<Range>) -> bool {
    &&& forall|i: int| 0 <= i < s.len() ==> (#[trigger] s[i]).start <= s[i].end
    &&& forall|i: int, j: int|
        0 <= i < s.len() && 0 <= j < s.len() && i != j ==> !touches(#[trigger] s[i], #[trigger] s[j])
}

/// The points `p` can be held by a range set: some well formed sequence of
/// at most `MAX_RANGES` ranges covers exactly them
pub open spec fn representable(p: Set<int>) -> bool {
    exists|s: Seq<Range>| ranges_wf(s) && covered(s) == p
}

/// A set of non-overlapping, non-adjacent inclusive `u64` ranges
#[derive(Debug)]
pub struct RangeSet {
    /// Ranges in the set, in no particular order
    ranges: Vec<Range>,
}

impl View for RangeSet {
    type V = Set<int>;

    /// The points covered by the set
    open spec fn view(&self) -> Set<int> {
        covered(self.spans())
    }
}

proof fn lemma_covered_push(s: Seq<Range>, r: Range)
    ensures
        covered(s.push(r)) == covered(s).union(points(r)),
{
    let t = s.push(r);
    assert forall|x: int| covered(t).contains(x) <==> covered(s).union(points(r)).contains(x) by {
        if covered(s).contains(x) {
            let i = choose|i: int| 0 <= i < s.len() && #[trigger] holds(s[i], x);
            assert(t[i] == s[i]);
            assert(holds(t[i], x));
        }
        if covered(t).contains(x) && !points(r).contains(x) {
            let i = choose|i: int| 0 <= i < t.len() && #[trigger] holds(t[i], x);
            assert(i != s.len());
            assert(holds(s[i], x));
        }
        if points(r).contains(x) {
            assert(holds(t[s.len() as int], x));
        }
    }
    assert(covered(t) =~= covered(s).union(points(r)));
}

/// Removing entry `i` by moving the last entry into its place loses only
/// the points of entry `i` that no other entry covers
proof fn lemma_covered_swap_remove(s: Seq<Range>, i: int)
    requires
        0 <= i < s.len(),
    ensures
        covered(s.update(i, s.last()).drop_last()).union(points(s[i])) == covered(s),
        covered(s.update(i, s.last()).drop_last()).subset_of(covered(s)),
{
    let t = s.update(i, s.last()).drop_last();
    assert forall|x: int| covered(s).contains(x) implies #[trigger] covered(t).union(points(s[i])).contains(x) by {
        let k = choose|k: int| 0 <= k < s.len() && #[trigger] holds(s[k], x);
        if k != i {
            if k == s.len() - 1 {
                assert(holds(t[i], x));
            } else {
                assert(holds(t[k], x));
            }
        }
    }
    assert forall|x: int| covered(t).contains(x) implies #[trigger] covered(s).contains(x) by {
        let k = choose|k: int| 0 <= k < t.len() && #[trigger] holds(t[k], x);
        if k == i {
            assert(holds(s[s.len() - 1], x));
        } else {
            assert(holds(s[k], x));
        }
    }
    assert forall|x: int| points(s[i]).contains(x) implies #[trigger] covered(s).contains(x) by {
        assert(holds(s[i], x));
    }
    assert(covered(t).union(points(s[i])) =~= covered(s));
}

/// Replacing entry `i` by `r` changes only the points of the old entry and `r`
proof fn lemma_covered_update(s: Seq<Range>, i: int, r: Range, x: int)
    requires
        0 <= i < s.len(),
        !holds(s[i], x),
        !holds(r, x),
    ensures
        covered(s.update(i, r)).contains(x) == covered(s).contains(x),
{
    let t = s.update(i, r);
    if covered(s).contains(x) {
        let k = choose|k: int| 0 <= k < s.len() && #[trigger] holds(s[k], x);
        assert(holds(t[k], x));
    }
    if covered(t).contains(x) {
        let k = choose|k: int| 0 <= k < t.len() && #[trigger] holds(t[k], x);
        assert(holds(s[k], x));
    }
}

/// `inner` lies strictly inside `outer`, reaching neither of its ends
pub open spec fn strictly_inside(inner: Range, outer: Range) -> bool {
    outer.start < inner.start && inner.end < outer.end
}

/// Total number of points in the ranges of `s`, counted with repetition
pub open spec fn total(s: Seq<Range>) -> int
    decreases s.len(),
{
    if s.len() == 0 {
        0
    } else {
        total(s.drop_last()) + (s.last().end - s.last().start + 1)
    }
}

/// `a` is a power of two
pub open spec fn is_pow2(a: u64) -> bool {
    a != 0 && (a & ((a - 1) as u64)) == 0
}

/// Bytes of padding that bring `start` up to a multiple of `align`
pub open spec fn pad(start: int, align: int) -> int {
    if start % align == 0 {
        0
    } else {
        align - start % align
    }
}

/// Free range `e` can hold `size` bytes after padding its start to `align`
pub open spec fn fits(e: Range, size: u64, align: u64) -> bool {
    e.start + pad(e.start as int, align as int) + size - 1 <= e.end
}

/// Among the free ranges `s`, entry `b` fits and needs the least padding,
/// ties going to the earliest entry
pub open spec fn is_best_fit(s: Seq<Range>, size: u64, align: u64, b: int) -> bool {
    &&& 0 <= b < s.len()
    &&& fits(s[b], size, align)
    &&& forall|j: int| 0 <= j < b && fits(#[trigger] s[j], size, align) ==>
        pad(s[j].start as int, align as int) > pad(s[b].start as int, align as int)
    &&& forall|j: int| b < j < s.len() && fits(#[trigger] s[j], size, align) ==>
        pad(s[j].start as int, align as int) >= pad(s[b].start as int, align as int)
}

/// Start of the overlap of `e` and `p`
pub open spec fn overlap_start(e: Range, p: Range) -> int {
    if e.start >= p.start { e.start as int } else { p.start as int }
}

/// End of the overlap of `e` and `p`
pub open spec fn overlap_end(e: Range, p: Range) -> int {
    if e.end <= p.end { e.end as int } else { p.end as int }
}

/// First aligned address in the overlap of `e` and `p`
pub open spec fn pref_addr(e: Range, p: Range, align: u64) -> int {
    overlap_start(e, p) + pad(overlap_start(e, p), align as int)
}

/// The overlap of `e` and `p` holds `size` bytes at an aligned address
pub open spec fn region_hit(e: Range, p: Range, size: u64, align: u64) -> bool {
    intersects(e, p) && pref_addr(e, p, align) + size - 1 <= overlap_end(e, p)
}

/// Free entry `i` fits, and its overlap with preferred entry `k` holds
/// `size` bytes at an aligned address
pub open spec fn pref_hit(s: Seq<Range>, ps: Seq<Range>, size: u64, align: u64, i: int, k: int) -> bool {
    &&& 0 <= i < s.len()
    &&& 0 <= k < ps.len()
    &&& fits(s[i], size, align)
    &&& region_hit(s[i], ps[k], size, align)
}

/// `(i, k)` is the first preferred hit, taking free entries in order and,
/// for each, the preferred entries in order
pub open spec fn first_pref_hit(s: Seq<Range>, ps: Seq<Range>, size: u64, align: u64, i: int, k: int) -> bool {
    &&& pref_hit(s, ps, size, align, i, k)
    &&& forall|i2: int, k2: int|
        (i2 < i || (i2 == i && k2 < k)) ==> !#[trigger] pref_hit(s, ps, size, align, i2, k2)
}

/// Some free entry has a preferred hit
pub open spec fn any_pref_hit(s: Seq<Range>, ps: Seq<Range>, size: u64, align: u64) -> bool {
    exists|i: int, k: int| #[trigger] pref_hit(s, ps, size, align, i, k)
}

/// The ranges of an optional preference set
pub open spec fn pref_spans(regions: Option<&RangeSet>) -> Seq<Range> {
    match regions {
        Some(p) => p.spans(),
        None => Seq::<Range>::empty(),
    }
}

/// Allocating `size` bytes aligned to `align` from free ranges `s`, with
/// preferred ranges `ps`, takes the span `[base, addr + size - 1]` and
/// yields `addr`
pub open spec fn allocation_of(s: Seq<Range>, ps: Seq<Range>, size: u64, align: u64, base: int, addr: int) -> bool {
    ||| exists|i: int, k: int| #[trigger] first_pref_hit(s, ps, size, align, i, k)
        && addr == pref_addr(s[i], ps[k], align) && base == addr
    ||| !any_pref_hit(s, ps, size, align) && exists|b: int| #[trigger] is_best_fit(s, size, align, b)
        && base == s[b].start && addr == s[b].start + pad(s[b].start as int, align as int)
}

/// `x` is covered by `s` and lies outside `r`
pub open spec fn old_spans_diff(s: Seq<Range>, r: Range, x: int) -> bool {
    covered(s).difference(points(r)).contains(x)
}

/// The smallest range holding both `a` and `b`
pub open spec fn hull(a: Range, b: Range) -> Range {
    Range {
        start: if a.start <= b.start { a.start } else { b.start },
        end: if a.end >= b.end { a.end } else { b.end },
    }
}

/// Two touching ranges cover exactly the points of their hull
proof fn lemma_hull_points(a: Range, b: Range)
    requires
        a.start <= a.end,
        b.start <= b.end,
        touches(a, b),
    ensures
        points(hull(a, b)) == points(a).union(points(b)),
{
    assert(points(hull(a, b)) =~= points(a).union(points(b)));
}

proof fn lemma_pad(x: int, a: int)
    requires
        a > 0,
        x >= 0,
    ensures
        0 <= pad(x, a) < a,
        (x + pad(x, a)) % a == 0,
{
    vstd::arithmetic::div_mod::lemma_fundamental_div_mod(x, a);
    let q = x / a;
    if x % a == 0 {
    } else {
        assert(a * q + a == a * (q + 1)) by (nonlinear_arith);
        assert(x + pad(x, a) == (q + 1) * a);
        vstd::arithmetic::div_mod::lemma_mod_multiples_basic(q + 1, a);
    }
}

proof fn lemma_total_prefix(s: Seq<Range>, i: int)
    requires
        0 <= i <= s.len(),
        forall|j: int| 0 <= j < s.len() ==> (#[trigger] s[j]).start <= s[j].end,
    ensures
        total(s.take(i)) <= total(s),
        total(s.take(i)) >= 0,
    decreases s.len(),
{
    if i == s.len() {
        assert(s.take(i) =~= s);
        if s.len() > 0 {
            lemma_total_prefix(s.drop_last(), 0);
            assert(s.drop_last().take(0) =~= Seq::<Range>::empty());
        }
    } else {
        let t = s.drop_last();
        assert forall|j: int| 0 <= j < t.len() implies (#[trigger] t[j]).start <= t[j].end by {
            assert(t[j] == s[j]);
        }
        lemma_total_prefix(t, i);
        assert(t.take(i) =~= s.take(i));
    }
}

/// Two entries of a well formed sequence that share a point are one entry
proof fn lemma_shared_point(s: Seq<Range>, a: int, b: int, x: int)
    requires
        ranges_wf(s),
        0 <= a < s.len(),
        0 <= b < s.len(),
        holds(s[a], x),
        holds(s[b], x),
    ensures
        a == b,
{
    if a != b {
        assert(!touches(s[a], s[b]));
    }
}

proof fn lemma_first_pref_hit_unique(
    s: Seq<Range>,
    ps: Seq<Range>,
    size: u64,
    align: u64,
    i: int,
    k: int,
    i2: int,
    k2: int,
)
    requires
        first_pref_hit(s, ps, size, align, i, k),
        first_pref_hit(s, ps, size, align, i2, k2),
    ensures
        i == i2 && k == k2,
{
    if i2 < i || (i2 == i && k2 < k) {
        assert(!pref_hit(s, ps, size, align, i2, k2));
    }
    if i < i2 || (i == i2 && k < k2) {
        assert(!pref_hit(s, ps, size, align, i, k));
    }
}

impl RangeSet {
    /// The ranges of the set, in storage order
    pub closed spec fn spans(&self) -> Seq<Range> {
        self.ranges@
    }

    /// The set respects its invariant
    pub open spec fn wf(&self) -> bool {
        ranges_wf(self.spans())
    }

    /// Create a new empty RangeSet
    pub fn new() -> (r: RangeSet)
        ensures
            r.wf(),
            r.spans() == Seq::<Range>::empty(),
            r@ == Set::<int>::empty(),
    {
        let r = RangeSet { ranges: Vec::new() };
        assert(r@ =~= Set::<int>::empty());
        r
    }

    /// Get all the entries in the RangeSet as a slice
    pub fn entries(&self) -> (r: &[Range])
        ensures
            r@ == self.spans(),
    {
        self.ranges.as_slice()
    }

    /// Delete the Range at `idx`, moving the last range into its place
    fn delete(&mut self, idx: usize) -> (r: Result<(), Error>)
        ensures
            idx < old(self).spans().len() ==> r == Ok::<(), Error>(()) && final(self).spans()
                == old(self).spans().update(idx as int, old(self).spans().last()).drop_last(),
            idx >= old(self).spans().len() ==> r == Err::<(), Error>(Error::InvalidIndex)
                && final(self).spans() == old(self).spans(),
    {
        if idx >= self.ranges.len() {
            return Err(Error::InvalidIndex);
        }
        self.ranges.swap_remove(idx);
        Ok(())
    }
    /// Remove `range` from the RangeSet.
    ///
    /// Every stored range which overlaps with `range` is trimmed so that no
    /// overlap remains; a range left empty is deleted, and a range that
    /// `range` lies strictly inside is split in two. Fails with
    /// `OutOfEntries`, leaving the set unchanged, only when such a split is
    /// needed and the set is full.
    pub fn remove(&mut self, range: Range) -> (r: Result<(), Error>)
        requires
            old(self).wf(),
        ensures
            final(self).wf(),
            range.end < range.start ==> r == Err::<(), Error>(Error::InvalidRange),
            r is Ok ==> final(self)@ == old(self)@.difference(points(range)),
            r is Ok ==> final(self).spans().len() <= old(self).spans().len() + 1,
            r is Err ==> final(self).spans() == old(self).spans(),
            r == Err::<(), Error>(Error::OutOfEntries) <==> (range.start <= range.end
                && old(self).spans().len() == MAX_RANGES && exists|i: int|
                0 <= i < old(self).spans().len() && strictly_inside(range, #[trigger] old(self).spans()[i])),
            range.start <= range.end && r is Err ==> r == Err::<(), Error>(Error::OutOfEntries),
    {
        if range.end < range.start {
            return Err(Error::InvalidRange);
        }
        let ghost old_spans = self.spans();

        // A range strictly inside a stored range overlaps no other stored
        // range, so splitting that one entry is all there is to do
        let mut k: usize = 0;
        while k < self.ranges.len()
            invariant
                self.spans() == old_spans,
                old_spans == old(self).spans(),
                ranges_wf(old_spans),
                range.start <= range.end,
                forall|j: int| 0 <= j < k ==> !strictly_inside(range, #[trigger] old_spans[j]),
            decreases self.spans().len() - k,
        {
            let ent = self.ranges[k];
            if ent.start < range.start && range.end < ent.end {
                if self.ranges.len() >= MAX_RANGES {
                    assert(strictly_inside(range, old_spans[k as int]));
                    assert(self.spans() == old(self).spans());
                    return Err(Error::OutOfEntries);
                }
                let low = Range { start: ent.start, end: range.start - 1 };
                let high = Range { start: range.end + 1, end: ent.end };
                self.ranges[k] = low;
                self.ranges.push(high);
                proof {
                    let s = self.spans();
                    assert(s == old_spans.update(k as int, low).push(high));
                    assert forall|a: int, b: int|
                        0 <= a < s.len() && 0 <= b < s.len() && a != b implies !touches(
                        #[trigger] s[a], #[trigger] s[b]) by {
                        if a < old_spans.len() && a != k && b < old_spans.len() && b != k {
                            assert(s[a] == old_spans[a] && s[b] == old_spans[b]);
                        } else if a < old_spans.len() && a != k {
                            assert(!touches(old_spans[a], old_spans[k as int]));
                        } else if b < old_spans.len() && b != k {
                            assert(!touches(old_spans[b], old_spans[k as int]));
                        }
                    }
                    assert forall|x: int| #[trigger] covered(s).contains(x) <==> old_spans_diff(old_spans, range, x) by {
                        if covered(s).contains(x) {
                            let i = choose|i: int| 0 <= i < s.len() && #[trigger] holds(s[i], x);
                            if i == k || i == old_spans.len() {
                                assert(holds(old_spans[k as int], x));
                            } else {
                                assert(holds(old_spans[i], x));
                            }
                        }
                        if old_spans_diff(old_spans, range, x) {
                            let i = choose|i: int| 0 <= i < old_spans.len() && #[trigger] holds(old_spans[i], x);
                            if i == k {
                                if x < range.start {
                                    assert(holds(s[k as int], x));
                                } else {
                                    assert(holds(s[old_spans.len() as int], x));
                                }
                            } else {
                                assert(holds(s[i], x));
                            }
                        }
                    }
                    assert(covered(s) =~= covered(old_spans).difference(points(range)));
                }
                return Ok(());
            }
            k = k + 1;
        }

        proof {
            assert forall|j: int| 0 <= j < self.spans().len() implies old_spans.contains(
                #[trigger] self.spans()[j]) by {
                assert(old_spans[j] == self.spans()[j]);
            }
        }
        let mut i: usize = 0;
        while i < self.ranges.len()
            invariant
                ranges_wf(self.spans()),
                range.start <= range.end,
                0 <= i <= self.spans().len(),
                self.spans().len() <= old_spans.len(),
                forall|j: int| 0 <= j < old_spans.len() ==> !strictly_inside(range, #[trigger] old_spans[j]),
                forall|j: int| i <= j < self.spans().len() ==> old_spans.contains(#[trigger] self.spans()[j]),
                forall|j: int| 0 <= j < i ==> !intersects(range, #[trigger] self.spans()[j]),
                covered(self.spans()).difference(points(range)) == covered(old_spans).difference(points(range)),
            decreases self.spans().len() - i,
        {
            let ent = self.ranges[i];
            let ghost before = self.spans();
            proof {
                assert(old_spans.contains(before[i as int]));
            }

            // If there is no overlap, there is nothing to do with this range
            if overlaps(range, ent).is_none() {
                i = i + 1;
                continue;
            }

            if contains(ent, range) {
                // The whole entry goes
                let _ = self.delete(i);
                proof {
                    let s = self.spans();
                    lemma_covered_swap_remove(before, i as int);
                    assert forall|a: int, b: int|
                        0 <= a < s.len() && 0 <= b < s.len() && a != b implies !touches(
                        #[trigger] s[a], #[trigger] s[b]) by {
                        let a0 = if a == i { before.len() - 1 } else { a };
                        let b0 = if b == i { before.len() - 1 } else { b };
                        assert(s[a] == before[a0] && s[b] == before[b0]);
                    }
                    assert forall|j: int| i <= j < s.len() implies old_spans.contains(#[trigger] s[j]) by {
                        let j0 = if j == i { before.len() - 1 } else { j };
                        assert(s[j] == before[j0]);
                    }
                    assert(covered(s).difference(points(range)) =~= covered(before).difference(points(range)));
                }
                continue;
            }

            let ghost m = choose|m: int| 0 <= m < old_spans.len() && old_spans[m] == before[i as int];
            let trimmed = if range.start <= ent.start {
                // The overlap is on the low end of the entry
                Range { start: range.end + 1, end: ent.end }
            } else {
                // The overlap is on the high end of the entry, as `range`
                // does not lie strictly inside it
                proof {
                    assert(!strictly_inside(range, old_spans[m]));
                }
                Range { start: ent.start, end: range.start - 1 }
            };
            self.ranges[i] = trimmed;
            proof {
                let s = self.spans();
                assert(s == before.update(i as int, trimmed));
                assert forall|a: int, b: int|
                    0 <= a < s.len() && 0 <= b < s.len() && a != b implies !touches(
                    #[trigger] s[a], #[trigger] s[b]) by {
                    assert(!touches(before[a], before[b]));
                }
                assert forall|x: int| covered(s).difference(points(range)).contains(x) <==> covered(before).difference(points(range)).contains(x) by {
                    if !points(range).contains(x) {
                        if holds(before[i as int], x) {
                            assert(holds(s[i as int], x));
                        } else {
                            lemma_covered_update(before, i as int, trimmed, x);
                        }
                    }
                }
                assert(covered(s).difference(points(range)) =~= covered(before).difference(points(range)));
            }
            i = i + 1;
        }
        proof {
            let s = self.spans();
            assert forall|x: int| points(range).contains(x) implies !#[trigger] covered(s).contains(x) by {
                if covered(s).contains(x) {
                    let j = choose|j: int| 0 <= j < s.len() && #[trigger] holds(s[j], x);
                    assert(!intersects(range, s[j]));
                }
            }
            assert(covered(s) =~= covered(s).difference(points(range)));
        }
        Ok(())
    }

    /// Insert a new range into this RangeSet.
    ///
    /// Every stored range that overlaps or is adjacent to `range` is merged
    /// with it into one entry. Fails with `OutOfEntries`, leaving the set
    /// unchanged, only when nothing merges and the set is full.
    pub fn insert(&mut self, range: Range) -> (r: Result<(), Error>)
        requires
            old(self).wf(),
        ensures
            final(self).wf(),
            range.end < range.start ==> r == Err::<(), Error>(Error::InvalidRange),
            r is Ok ==> final(self)@ == old(self)@.union(points(range)),
            r is Ok ==> final(self).spans().len() <= old(self).spans().len() + 1,
            r is Err ==> final(self).spans() == old(self).spans(),
            r == Err::<(), Error>(Error::OutOfEntries) <==> (range.start <= range.end
                && old(self).spans().len() == MAX_RANGES && forall|i: int|
                0 <= i < old(self).spans().len() ==> !touches(range, #[trigger] old(self).spans()[i])),
            range.start <= range.end && r is Err ==> r == Err::<(), Error>(Error::OutOfEntries),
            r == Err::<(), Error>(Error::OutOfEntries) ==> !representable(old(self)@.union(points(range))),
    {
        if range.end < range.start {
            return Err(Error::InvalidRange);
        }
        let ghost old_spans = self.spans();
        let mut merged = range;
        let mut i: usize = 0;
        while i < self.ranges.len()
            invariant
                ranges_wf(self.spans()),
                merged.start <= merged.end,
                0 <= i <= self.spans().len(),
                self.spans().len() <= old_spans.len(),
                covered(self.spans()).union(points(merged)) == covered(old_spans).union(points(range)),
                forall|j: int| 0 <= j < i ==> !touches(merged, #[trigger] self.spans()[j]),
                self.spans().len() == old_spans.len() ==> merged == range && self.spans() == old_spans,
                self.spans().len() < old_spans.len() ==> exists|k: int|
                    0 <= k < old_spans.len() && touches(range, #[trigger] old_spans[k]),
            decreases self.spans().len() - i,
        {
            let ent = self.ranges[i];
            // Ranges are widened by one at the end so that adjacent ranges
            // are merged too.
            if overlaps(
                Range { start: merged.start, end: merged.end.saturating_add(1) },
                Range { start: ent.start, end: ent.end.saturating_add(1) },
            ).is_none() {
                i = i + 1;
                continue;
            }
            proof {
                let s = self.spans();
                assert(touches(merged, s[i as int]));
                if s.len() == old_spans.len() {
                    assert(touches(range, old_spans[i as int]));
                }
                lemma_hull_points(merged, ent);
                lemma_covered_swap_remove(s, i as int);
                assert forall|j: int| 0 <= j < i implies !touches(hull(merged, ent), #[trigger] s[j]) by {
                    assert(!touches(s[j], s[i as int]));
                }
            }
            let ghost before = self.spans();
            let ghost m_old = merged;
            merged = Range {
                start: if merged.start <= ent.start { merged.start } else { ent.start },
                end: if merged.end >= ent.end { merged.end } else { ent.end },
            };
            let _ = self.delete(i);
            proof {
                let s = self.spans();
                assert(forall|j: int| 0 <= j < i ==> s[j] == before[j]);
                assert forall|a: int, b: int|
                    0 <= a < s.len() && 0 <= b < s.len() && a != b implies !touches(
                    #[trigger] s[a], #[trigger] s[b]) by {
                    let a0 = if a == i { before.len() - 1 } else { a };
                    let b0 = if b == i { before.len() - 1 } else { b };
                    assert(s[a] == before[a0] && s[b] == before[b0]);
                }
                assert(points(merged) == points(m_old).union(points(ent)));
                assert(covered(s).union(points(merged)) =~= covered(s).union(points(ent)).union(
                    points(m_old)));
            }
        }
        proof {
            let s = self.spans();
            lemma_covered_push(s, merged);
            assert forall|a: int, b: int|
                0 <= a < s.len() + 1 && 0 <= b < s.len() + 1 && a != b implies !touches(
                #[trigger] s.push(merged)[a], #[trigger] s.push(merged)[b]) by {
                if a < s.len() && b < s.len() {
                    assert(s.push(merged)[a] == s[a] && s.push(merged)[b] == s[b]);
                }
            }
            assert forall|a: int| 0 <= a < s.len() + 1 implies (#[trigger] s.push(merged)[a]).start
                <= s.push(merged)[a].end by {
                if a < s.len() {
                    assert(s.push(merged)[a] == s[a]);
                }
            }
        }
        if self.ranges.len() >= MAX_RANGES {
            proof {
                lemma_too_many(self.spans().push(merged));
            }
            return Err(Error::OutOfEntries);
        }
        proof {
            let s = self.spans();
            lemma_covered_push(s, merged);
            assert forall|a: int, b: int|
                0 <= a < s.len() + 1 && 0 <= b < s.len() + 1 && a != b implies !touches(
                #[trigger] s.push(merged)[a], #[trigger] s.push(merged)[b]) by {
                if a < s.len() && b < s.len() {
                    assert(s.push(merged)[a] == s[a] && s.push(merged)[b] == s[b]);
                }
            }
        }
        self.ranges.push(merged);
        Ok(())
    }

    /// Compute the number of points covered by this RangeSet, or `None`
    /// when it does not fit in a `u64`
    pub fn sum(&self) -> (r: Option<u64>)
        requires
            self.wf(),
        ensures
            total(self.spans()) <= u64::MAX ==> r == Some(total(self.spans()) as u64),
            total(self.spans()) > u64::MAX ==> r is None,
            total(self.spans()) == self@.len(),
    {
        proof {
            lemma_total_is_size(self.spans());
        }
        let ghost s = self.spans();
        let mut acc: u64 = 0;
        let mut i: usize = 0;
        while i < self.ranges.len()
            invariant
                s == self.spans(),
                ranges_wf(s),
                total(s) == self@.len(),
                0 <= i <= s.len(),
                acc == total(s.take(i as int)),
            decreases s.len() - i,
        {
            let ent = self.ranges[i];
            proof {
                assert(s.take(i + 1).drop_last() =~= s.take(i as int));
                assert(s.take(i + 1).last() == ent);
            }
            match acc.checked_add(ent.end - ent.start) {
                Some(x) => match x.checked_add(1) {
                    Some(y) => {
                        acc = y;
                    },
                    None => {
                        proof {
                            lemma_total_prefix(s, i + 1);
                        }
                        return None;
                    },
                },
                None => {
                    proof {
                        lemma_total_prefix(s, i + 1);
                    }
                    return None;
                },
            }
            i = i + 1;
        }
        proof {
            assert(s.take(i as int) =~= s);
        }
        Some(acc)
    }

    /// Allocate `size` bytes aligned to `align` from anywhere in the set,
    /// taking the fitting range that needs the least padding
    pub fn allocate(&mut self, size: u64, align: u64) -> (r: Result<u64, Error>)
        requires
            old(self).wf(),
        ensures
            final(self).wf(),
            size == 0 ==> r == Err::<u64, Error>(Error::ZeroSizeAllocation),
            size != 0 && !is_pow2(align) ==> r == Err::<u64, Error>(Error::InvalidAlignment),
            r is Err ==> final(self).spans() == old(self).spans(),
            r matches Ok(addr) ==> size != 0 && is_pow2(align) && addr % align == 0
                && interval(addr as int, addr + size - 1).subset_of(old(self)@)
                && exists|b: int| #[trigger] is_best_fit(old(self).spans(), size, align, b)
                && addr == old(self).spans()[b].start + pad(old(self).spans()[b].start as int, align as int)
                && final(self)@ == old(self)@.difference(interval(old(self).spans()[b].start as int, addr + size - 1))
                && interval(old(self).spans()[b].start as int, addr + size - 1).subset_of(old(self)@),
            r == Err::<u64, Error>(Error::OutOfMemory) <==> (size != 0 && is_pow2(align) && forall|i: int|
                0 <= i < old(self).spans().len() ==> !fits(#[trigger] old(self).spans()[i], size, align)),
            size != 0 && is_pow2(align) && r is Err ==> r == Err::<u64, Error>(Error::OutOfMemory),
    {
        let r = self.allocate_prefer(size, align, None);
        proof {
            let s = old(self).spans();
            let ps = pref_spans(None);
            if r is Ok {
                let addr = r->Ok_0;
                let base = choose|base: int| allocation_of(s, ps, size, align, base, addr as int)
                    && final(self)@ == old(self)@.difference(interval(base, addr + size - 1))
                    && interval(base, addr + size - 1).subset_of(old(self)@);
                if exists|i: int, k: int| #[trigger] first_pref_hit(s, ps, size, align, i, k) {
                    let (i, k) = choose|i: int, k: int| #[trigger] first_pref_hit(s, ps, size, align, i, k);
                    assert(false);
                }
            }
            if r == Err::<u64, Error>(Error::OutOfEntries) {
                let (i, k) = choose|i: int, k: int| #[trigger] first_pref_hit(s, ps, size, align, i, k)
                    && old(self).spans()[i].start < pref_addr(s[i], ps[k], align);
                assert(false);
            }
        }
        r
    }

    /// Allocate `size` bytes aligned to `align`, preferring the ranges of
    /// `regions`.
    ///
    /// Free ranges are examined in order. The first free range that fits and
    /// whose overlap with a preferred range (taken in order) holds the
    /// aligned allocation wins at once, even where a later fit would be
    /// smaller. Without such a hit, the fitting free range that needs the
    /// least padding is taken from its start, padding included.
    pub fn allocate_prefer(&mut self, size: u64, align: u64, regions: Option<&RangeSet>) -> (r: Result<u64, Error>)
        requires
            old(self).wf(),
            regions matches Some(p) ==> p.wf(),
        ensures
            final(self).wf(),
            size == 0 ==> r == Err::<u64, Error>(Error::ZeroSizeAllocation),
            size != 0 && !is_pow2(align) ==> r == Err::<u64, Error>(Error::InvalidAlignment),
            r is Err ==> final(self).spans() == old(self).spans(),
            r matches Ok(addr) ==> size != 0 && is_pow2(align) && addr % align == 0
                && interval(addr as int, addr + size - 1).subset_of(old(self)@)
                && exists|base: int| allocation_of(old(self).spans(), pref_spans(regions), size, align, base, addr as int)
                && final(self)@ == old(self)@.difference(interval(base, addr + size - 1))
                && interval(base, addr + size - 1).subset_of(old(self)@),
            r == Err::<u64, Error>(Error::OutOfMemory) <==> (size != 0 && is_pow2(align) && forall|i: int|
                0 <= i < old(self).spans().len() ==> !fits(#[trigger] old(self).spans()[i], size, align)),
            r == Err::<u64, Error>(Error::OutOfEntries) <==> (size != 0 && is_pow2(align)
                && old(self).spans().len() == MAX_RANGES && exists|i: int, k: int|
                #[trigger] first_pref_hit(old(self).spans(), pref_spans(regions), size, align, i, k)
                && old(self).spans()[i].start < pref_addr(old(self).spans()[i], pref_spans(regions)[k], align)
                && pref_addr(old(self).spans()[i], pref_spans(regions)[k], align) + size - 1 < old(self).spans()[i].end),
            size != 0 && is_pow2(align) && r is Err ==> r == Err::<u64, Error>(Error::OutOfMemory)
                || r == Err::<u64, Error>(Error::OutOfEntries),
    {
        // Don't allow allocations of zero size
        if size == 0 {
            return Err(Error::ZeroSizeAllocation);
        }

        // Validate alignment is non-zero and a power of 2
        if !(align != 0 && (align & (align - 1)) == 0) {
            return Err(Error::InvalidAlignment);
        }

        let ghost s = self.spans();
        let ghost ps = pref_spans(regions);
        let n = self.ranges.len();

        // The best allocation so far, as (base of the span taken, address)
        let mut allocation: Option<(u64, u64)> = None;
        let mut preferred = false;
        let ghost mut bi: int = 0;
        let ghost mut pk: int = 0;
        let mut i: usize = 0;
        while i < n && !preferred
            invariant
                self.spans() == s,
                s == old(self).spans(),
                ranges_wf(s),
                ps == pref_spans(regions),
                regions matches Some(p) ==> p.wf(),
                n == s.len(),
                size > 0,
                align > 0,
                0 <= i <= n,
                !preferred ==> forall|i2: int, k2: int| i2 < i ==> !#[trigger] pref_hit(s, ps, size, align, i2, k2),
                preferred ==> i < n && first_pref_hit(s, ps, size, align, i as int, pk)
                    && allocation == Some((pref_addr(s[i as int], ps[pk], align) as u64,
                        pref_addr(s[i as int], ps[pk], align) as u64)),
                !preferred ==> (allocation is None <==> forall|j: int| 0 <= j < i ==> !fits(#[trigger] s[j], size, align)),
                !preferred && allocation is Some ==> {
                    &&& 0 <= bi < i
                    &&& fits(s[bi], size, align)
                    &&& allocation == Some((s[bi].start, (s[bi].start + pad(s[bi].start as int, align as int)) as u64))
                    &&& forall|j: int| 0 <= j < bi && fits(#[trigger] s[j], size, align) ==>
                        pad(s[j].start as int, align as int) > pad(s[bi].start as int, align as int)
                    &&& forall|j: int| bi < j < i && fits(#[trigger] s[j], size, align) ==>
                        pad(s[j].start as int, align as int) >= pad(s[bi].start as int, align as int)
                },
            decreases 2 * (n - i) + (if preferred { 0int } else { 1int }),
        {
            let ent = self.ranges[i];

            // Padding needed at the front to satisfy the alignment
            let rem = ent.start % align;
            let align_fix = if rem == 0 { 0 } else { align - rem };
            proof {
                lemma_pad(ent.start as int, align as int);
            }

            // Inclusive end of an allocation from the start of this range
            let end = match ent.start.checked_add(size - 1) {
                Some(x) => x.checked_add(align_fix),
                None => None,
            };
            let fit = match end {
                Some(e) => e <= ent.end,
                None => false,
            };
            if !fit {
                proof {
                    assert forall|i2: int, k2: int| i2 < i + 1 implies !#[trigger] pref_hit(s, ps, size, align, i2, k2) by {
                        if i2 < i {
                        }
                    }
                }
                i = i + 1;
                continue;
            }
            let end = end.unwrap();

            // A fit inside a preferred region wins at once
            if let Some(p) = regions {
                match first_region_hit(ent, p, size, align) {
                    Some(addr) => {
                        proof {
                            let k = choose|k: int| 0 <= k < ps.len() && region_hit(ent, ps[k], size, align)
                                && (forall|k2: int| 0 <= k2 < k ==> !region_hit(ent, #[trigger] ps[k2], size, align))
                                && addr == pref_addr(ent, ps[k], align);
                            pk = k;
                            assert forall|i2: int, k2: int| (i2 < i || (i2 == i && k2 < k)) implies !#[trigger] pref_hit(s, ps, size, align, i2, k2) by {
                                if i2 == i && 0 <= k2 {
                                    assert(!region_hit(ent, ps[k2], size, align));
                                }
                            }
                        }
                        allocation = Some((addr, addr));
                        preferred = true;
                        continue;
                    },
                    None => {},
                }
            }
            proof {
                assert forall|i2: int, k2: int| i2 < i + 1 implies !#[trigger] pref_hit(s, ps, size, align, i2, k2) by {
                    if i2 == i && 0 <= k2 < ps.len() {
                        assert(!region_hit(ent, ps[k2], size, align));
                    }
                }
            }

            // Otherwise keep the fit that needs the least padding so far
            let better = match allocation {
                None => true,
                Some((b, a)) => align_fix < a - b,
            };
            if better {
                proof {
                    bi = i as int;
                }
                allocation = Some((ent.start, ent.start + align_fix));
            }
            i = i + 1;
        }

        match allocation {
            Some((base, addr)) => {
                let ghost ci: int = if preferred { i as int } else { bi };
                proof {
                    lemma_pad(s[ci].start as int, align as int);
                    if preferred {
                        lemma_pad(overlap_start(s[ci], ps[pk]), align as int);
                    }
                }
                let span = Range { start: base, end: addr + (size - 1) };
                let res = self.remove(span);
                proof {
                    assert forall|x: int| interval(base as int, addr + size - 1).contains(x)
                        implies old(self)@.contains(x) by {
                        assert(holds(s[ci], x));
                    }
                    if preferred {
                        assert(allocation_of(s, ps, size, align, base as int, addr as int));
                    } else {
                        assert(!any_pref_hit(s, ps, size, align));
                        assert(is_best_fit(s, size, align, bi));
                        assert(allocation_of(s, ps, size, align, base as int, addr as int));
                    }
                    if res is Err {
                        let j = choose|j: int| 0 <= j < s.len() && strictly_inside(span, #[trigger] s[j]);
                        lemma_shared_point(s, ci, j, addr as int);
                        assert(preferred);
                    }
                    if preferred && s.len() == MAX_RANGES && s[ci].start < addr && addr + size - 1 < s[ci].end {
                        assert(strictly_inside(span, s[ci]));
                    }
                    if exists|i2: int, k2: int| #[trigger] first_pref_hit(s, ps, size, align, i2, k2) {
                        let (i2, k2) = choose|i2: int, k2: int| #[trigger] first_pref_hit(s, ps, size, align, i2, k2);
                        if preferred {
                            lemma_first_pref_hit_unique(s, ps, size, align, i as int, pk, i2, k2);
                        } else {
                            assert(!pref_hit(s, ps, size, align, i2, k2));
                        }
                    }
                }
                match res {
                    Ok(()) => Ok(addr),
                    Err(e) => Err(e),
                }
            },
            None => Err(Error::OutOfMemory),
        }
    }
}

/// The aligned address of the first entry of `regions`, in order, whose
/// overlap with `e` holds `size` bytes from that address
fn first_region_hit(e: Range, regions: &RangeSet, size: u64, align: u64) -> (r: Option<u64>)
    requires
        e.start <= e.end,
        regions.wf(),
        size > 0,
        align > 0,
    ensures
        r is None <==> forall|k: int| 0 <= k < regions.spans().len() ==> !region_hit(e, #[trigger] regions.spans()[k], size, align),
        r matches Some(a) ==> exists|k: int| 0 <= k < regions.spans().len() && region_hit(e, regions.spans()[k], size, align)
            && (forall|k2: int| 0 <= k2 < k ==> !region_hit(e, #[trigger] regions.spans()[k2], size, align))
            && a == pref_addr(e, regions.spans()[k], align),
{
    let ghost ps = regions.spans();
    let mut k: usize = 0;
    while k < regions.ranges.len()
        invariant
            ps == regions.spans(),
            ranges_wf(ps),
            e.start <= e.end,
            size > 0,
            align > 0,
            0 <= k <= ps.len(),
            forall|k2: int| 0 <= k2 < k ==> !region_hit(e, #[trigger] ps[k2], size, align),
        decreases ps.len() - k,
    {
        let region = regions.ranges[k];
        if let Some(overlap) = overlaps(e, region) {
            // Round the start of the overlap up to the alignment
            let rem = overlap.start % align;
            let fix = if rem == 0 { 0 } else { align - rem };
            if let Some(aligned) = overlap.start.checked_add(fix) {
                if aligned <= overlap.end && overlap.end - aligned >= size - 1 {
                    return Some(aligned);
                }
            }
        }
        k = k + 1;
    }
    None
}

/// Determines the overlap of `a` and `b`, each read with its bounds in
/// either order. If there is overlap, returns the range of the overlap.
fn overlaps(a: Range, b: Range) -> (r: Option<Range>)
    ensures
        ({
            let a0 = if a.start <= a.end { a } else { Range { start: a.end, end: a.start } };
            let b0 = if b.start <= b.end { b } else { Range { start: b.end, end: b.start } };
            &&& r is None <==> !intersects(a0, b0)
            &&& r matches Some(o) ==> o.start == (if a0.start >= b0.start { a0.start } else { b0.start })
                && o.end == (if a0.end <= b0.end { a0.end } else { b0.end })
        }),
{
    let a = if a.start <= a.end { a } else { Range { start: a.end, end: a.start } };
    let b = if b.start <= b.end { b } else { Range { start: b.end, end: b.start } };
    if a.start <= b.end && b.start <= a.end {
        Some(Range {
            start: if a.start >= b.start { a.start } else { b.start },
            end: if a.end <= b.end { a.end } else { b.end },
        })
    } else {
        None
    }
}

/// Returns true if the entirety of `a` is contained inside `b`, each read
/// with its bounds in either order
fn contains(a: Range, b: Range) -> (r: bool)
    ensures
        ({
            let a0 = if a.start <= a.end { a } else { Range { start: a.end, end: a.start } };
            let b0 = if b.start <= b.end { b } else { Range { start: b.end, end: b.start } };
            r == (a0.start >= b0.start && a0.end <= b0.end)
        }),
{
    let a = if a.start <= a.end { a } else { Range { start: a.end, end: a.start } };
    let b = if b.start <= b.end { b } else { Range { start: b.end, end: b.start } };
    a.start >= b.start && a.end <= b.end
}

/// Entry `i` of `a` is an entry of `b` when both are well formed and cover
/// the same points
proof fn lemma_entry_shared(a: Seq<Range>, b: Seq<Range>, i: int)
    requires
        separated(a),
        separated(b),
        covered(a) == covered(b),
        0 <= i < a.len(),
    ensures
        b.contains(a[i]),
{
    let e = a[i];
    assert(holds(a[i], e.start as int));
    assert(covered(a).contains(e.start as int));
    let j = choose|j: int| 0 <= j < b.len() && #[trigger] holds(b[j], e.start as int);
    let f = b[j];
    if f.start < e.start {
        let y = e.start - 1;
        assert(holds(b[j], y));
        assert(covered(b).contains(y));
        let i2 = choose|i2: int| 0 <= i2 < a.len() && #[trigger] holds(a[i2], y);
        assert(!touches(a[i2], a[i]));
    }
    if f.end > e.end {
        let y = e.end + 1;
        assert(holds(b[j], y));
        assert(covered(b).contains(y));
        let i2 = choose|i2: int| 0 <= i2 < a.len() && #[trigger] holds(a[i2], y);
        assert(!touches(a[i2], a[i]));
    }
    if f.end < e.end {
        let y = f.end + 1;
        assert(holds(a[i], y));
        assert(covered(a).contains(y));
        let j2 = choose|j2: int| 0 <= j2 < b.len() && #[trigger] holds(b[j2], y);
        assert(!touches(b[j2], b[j]));
    }
    assert(f == e);
}

/// The ranges of `s` without its last are well formed too
proof fn lemma_wf_drop_last(s: Seq<Range>)
    requires
        ranges_wf(s),
        s.len() > 0,
    ensures
        ranges_wf(s.drop_last()),
{
    let t = s.drop_last();
    assert forall|i: int, j: int| 0 <= i < t.len() && 0 <= j < t.len() && i != j implies !touches(
        #[trigger] t[i], #[trigger] t[j]) by {
        assert(t[i] == s[i] && t[j] == s[j]);
    }
    assert forall|i: int| 0 <= i < t.len() implies (#[trigger] t[i]).start <= t[i].end by {
        assert(t[i] == s[i]);
    }
}

/// A well formed set covers exactly as many points as the sizes of its
/// ranges add up to
pub proof fn lemma_total_is_size(s: Seq<Range>)
    requires
        ranges_wf(s),
    ensures
        covered(s).finite(),
        covered(s).len() == total(s),
    decreases s.len(),
{
    if s.len() == 0 {
        assert(covered(s) =~= Set::<int>::empty());
    } else {
        let t = s.drop_last();
        let r = s.last();
        lemma_wf_drop_last(s);
        lemma_total_is_size(t);
        assert(t.push(r) =~= s);
        lemma_covered_push(t, r);
        assert(points(r) =~= vstd::set_lib::set_int_range(r.start as int, r.end + 1));
        vstd::set_lib::lemma_int_range(r.start as int, r.end + 1);
        assert forall|x: int| covered(t).contains(x) implies !points(r).contains(x) by {
            let i = choose|i: int| 0 <= i < t.len() && #[trigger] holds(t[i], x);
            assert(t[i] == s[i]);
            assert(!touches(s[i], s[s.len() - 1]));
        }
        assert(covered(t).disjoint(points(r)));
        vstd::set_lib::lemma_set_disjoint_lens(covered(t), points(r));
        assert(covered(t) + points(r) == covered(t).union(points(r)));
    }
}

/// Allocating takes exactly the span it reports out of the set: the number
/// of points the set covers, and the sum of its range sizes, drop by the
/// span's length
pub proof fn lemma_allocation_size(before: RangeSet, after: RangeSet, base: int, last: int)
    requires
        before.wf(),
        after.wf(),
        base <= last,
        interval(base, last).subset_of(before@),
        after@ == before@.difference(interval(base, last)),
    ensures
        after@.len() == before@.len() - (last - base + 1),
        total(after.spans()) == total(before.spans()) - (last - base + 1),
{
    lemma_total_is_size(before.spans());
    lemma_total_is_size(after.spans());
    let span = interval(base, last);
    assert(span =~= vstd::set_lib::set_int_range(base, last + 1));
    vstd::set_lib::lemma_int_range(base, last + 1);
    assert(before@ =~= after@ + span);
    assert(after@.disjoint(span));
    vstd::set_lib::lemma_set_disjoint_lens(after@, span);
}

/// More than `MAX_RANGES` separated ranges cover points that no range set
/// can hold
pub proof fn lemma_too_many(t: Seq<Range>)
    requires
        separated(t),
        t.len() > MAX_RANGES,
    ensures
        !representable(covered(t)),
{
    if representable(covered(t)) {
        let s = choose|s: Seq<Range>| ranges_wf(s) && covered(s) == covered(t);
        lemma_canonical(t, s);
        assert forall|i: int, j: int| 0 <= i < t.len() && 0 <= j < t.len() && i != j implies t[i] != t[j] by {
            assert(!touches(t[i], t[j]));
        }
        t.unique_seq_to_set();
        s.lemma_cardinality_of_set();
    }
}

/// A well formed set of ranges is determined by the points it covers: two
/// that cover the same points hold the same ranges
pub proof fn lemma_canonical(a: Seq<Range>, b: Seq<Range>)
    requires
        separated(a),
        separated(b),
        covered(a) == covered(b),
    ensures
        a.to_set() == b.to_set(),
{
    assert forall|r: Range| a.to_set().contains(r) <==> b.to_set().contains(r) by {
        if a.to_set().contains(r) {
            let i = choose|i: int| 0 <= i < a.len() && a[i] == r;
            lemma_entry_shared(a, b, i);
        }
        if b.to_set().contains(r) {
            let j = choose|j: int| 0 <= j < b.len() && b[j] == r;
            lemma_entry_shared(b, a, j);
        }
    }
    assert(a.to_set() =~= b.to_set());
}

/// A well formed set that covers exactly the points of one range holds
/// that range as its single entry
pub proof fn lemma_single_range(s: Seq<Range>, r: Range)
    requires
        ranges_wf(s),
        r.start <= r.end,
        covered(s) == points(r),
    ensures
        s == seq![r],
{
    let t = seq![r];
    assert forall|x: int| covered(t).contains(x) <==> points(r).contains(x) by {
        if points(r).contains(x) {
            assert(holds(t[0], x));
        }
    }
    assert(covered(t) =~= points(r));
    lemma_canonical(s, t);
    assert(t[0] == r);
    assert(t.contains(r));
    assert(t.to_set().contains(r));
    assert forall|i: int| 0 <= i < s.len() implies s[i] == r by {
        assert(s.to_set().contains(s[i]));
        assert(t.to_set().contains(s[i]));
    }
    if s.len() > 1 {
        assert(touches(s[0], s[1]));
    }
    assert(s =~= t);
}

/// Inserting two touching ranges into an empty set leaves one entry: the
/// range spanning both
pub proof fn lemma_touching_merge(s: RangeSet, a: Range, b: Range)
    requires
        s.wf(),
        a.start <= a.end,
        b.start <= b.end,
        touches(a, b),
        s@ == Set::<int>::empty().union(points(a)).union(points(b)),
    ensures
        s.spans() == seq![hull(a, b)],
{
    lemma_hull_points(a, b);
    assert(s@ =~= points(hull(a, b)));
    lemma_single_range(s.spans(), hull(a, b));
}

/// Inserting the same range a second time changes nothing: the second
/// insertion merges with an existing entry, so it cannot run out of
/// entries, and leaves the same ranges as the first
pub proof fn lemma_insert_twice(before: RangeSet, once: RangeSet, twice: RangeSet, r: Range)
    requires
        before.wf(),
        once.wf(),
        twice.wf(),
        r.start <= r.end,
        once@ == before@.union(points(r)),
        twice@ == once@.union(points(r)),
    ensures
        exists|i: int| 0 <= i < once.spans().len() && touches(r, #[trigger] once.spans()[i]),
        twice@ == once@,
        twice.spans().to_set() == once.spans().to_set(),
{
    assert(once@.contains(r.start as int));
    let i = choose|i: int| 0 <= i < once.spans().len() && #[trigger] holds(once.spans()[i], r.start as int);
    assert(touches(r, once.spans()[i]));
    assert(twice@ =~= once@);
    lemma_canonical(twice.spans(), once.spans());
}

/// Removing a range that the set covers and then inserting it again gives
/// back the ranges the set started with
pub proof fn lemma_remove_then_insert(before: RangeSet, removed: RangeSet, restored: RangeSet, r: Range)
    requires
        before.wf(),
        removed.wf(),
        restored.wf(),
        points(r).subset_of(before@),
        removed@ == before@.difference(points(r)),
        restored@ == removed@.union(points(r)),
    ensures
        restored@ == before@,
        restored.spans().to_set() == before.spans().to_set(),
{
    assert(restored@ =~= before@);
    lemma_canonical(restored.spans(), before.spans());
}

} // verus!
