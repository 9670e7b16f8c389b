use vstd::prelude::*;
use vstd::seq_lib::to_multiset_remove;
use crate::error::ProfileError;
use crate::index::{is_intersection, is_pair_of, lies_outside, read_hits_window, OverlapPair};
use crate::interval::{IntervalView, Strand};

verus! {

/// The first coordinate that a pair covers: the read's start, or the
/// window's where the read begins before it.
pub open spec fn clipped_start(pair: OverlapPair) -> int {
    if pair.read.start >= pair.window.start {
        pair.read.start as int
    } else {
        pair.window.start as int
    }
}

/// The last coordinate that a pair covers: the read's end, or the window's
/// where the read runs past it. The end itself is counted.
pub open spec fn clipped_end(pair: OverlapPair) -> int {
    if pair.read.end <= pair.window.end {
        pair.read.end as int
    } else {
        pair.window.end as int
    }
}

/// Whether a pair sets slot `i` of its scratch vector of `slots` slots. The
/// slots count offsets from the window's start; the pair sets those from its
/// clipped start to its clipped end, both included, as far as there are
/// slots. A pair whose clipped start lies beyond its clipped end sets none.
pub open spec fn marks(pair: OverlapPair, slots: nat, i: int) -> bool {
    &&& clipped_start(pair) <= clipped_end(pair)
    &&& 0 <= i < slots
    &&& clipped_start(pair) - pair.window.start <= i <= clipped_end(pair) - pair.window.start
}

/// The scratch vector of a pair: one where the pair covers, zero elsewhere.
pub open spec fn scratch_of(pair: OverlapPair, slots: nat) -> Seq<u64> {
    Seq::new(
        slots,
        |i: int|
            if marks(pair, slots, i) {
                1u64
            } else {
                0u64
            },
    )
}

/// The scratch vector as it is summed: turned end for end when the window
/// lies on the reverse strand, so that offsets run away from the reference
/// point in the direction of the strand.
pub open spec fn oriented(pair: OverlapPair, slots: nat) -> Seq<u64> {
    if pair.window.strand == Strand::Reverse {
        scratch_of(pair, slots).reverse()
    } else {
        scratch_of(pair, slots)
    }
}

/// How many of the pairs cover slot `i`.
pub open spec fn depth_at(pairs: Seq<OverlapPair>, slots: nat, i: int) -> nat
    decreases pairs.len(),
{
    if pairs.len() == 0 {
        0
    } else {
        depth_at(pairs.drop_last(), slots, i) + oriented(pairs.last(), slots)[i] as nat
    }
}

/// The coverage vector of a list of pairs for windows of
/// `upstream + downstream` positions: the depth at each offset. The scratch
/// vectors have one slot more than the window has positions, and that last
/// slot is dropped from the sum.
pub open spec fn coverage_of(pairs: Seq<OverlapPair>, upstream: u64, downstream: u64) -> Seq<u64> {
    Seq::new(
        (upstream + downstream) as nat,
        |i: int| depth_at(pairs, (upstream + downstream + 1) as nat, i) as u64,
    )
}

/// Builds the scratch vector of one pair.
pub fn scratch_vector(pair: &OverlapPair, slots: usize) -> (scratch: Vec<u64>)
    ensures
        scratch@ == scratch_of(*pair, slots as nat),
{
    let mut scratch: Vec<u64> = Vec::new();
    let mut n: usize = 0;
    while n < slots
        invariant
            n <= slots,
            scratch.len() == n,
            forall|i: int| 0 <= i < n ==> #[trigger] scratch[i] == 0,
        decreases slots - n,
    {
        scratch.push(0);
        n += 1;
    }
    let first = if pair.read.start >= pair.window.start {
        pair.read.start
    } else {
        pair.window.start
    };
    let last = if pair.read.end <= pair.window.end {
        pair.read.end
    } else {
        pair.window.end
    };
    if first <= last && first - pair.window.start < slots as u64 {
        let from: usize = (first - pair.window.start) as usize;
        let until: usize = if last - pair.window.start < slots as u64 {
            (last - pair.window.start) as usize + 1
        } else {
            slots
        };
        let mut at: usize = from;
        while at < until
            invariant
                from <= at <= until <= slots,
                scratch.len() == slots,
                forall|i: int| 0 <= i < slots ==> #[trigger] scratch[i] == if from <= i < at {
                    1u64
                } else {
                    0u64
                },
            decreases until - at,
        {
            scratch[at] = 1;
            at += 1;
        }
    }
    assert(scratch@ =~= scratch_of(*pair, slots as nat));
    scratch
}

/// Turns a scratch vector end for end.
pub fn reverse_scratch(scratch: &mut Vec<u64>)
    ensures
        final(scratch)@ == old(scratch)@.reverse(),
{
    let len = scratch.len();
    let mut i: usize = 0;
    while i < len / 2
        invariant
            len == scratch.len(),
            len == old(scratch).len(),
            i <= len / 2,
            forall|k: int| 0 <= k < i ==> #[trigger] scratch[k] == old(scratch)[len - 1 - k],
            forall|k: int| len - i <= k < len ==> #[trigger] scratch[k] == old(scratch)[len - 1 - k],
            forall|k: int| i <= k < len - i ==> #[trigger] scratch[k] == old(scratch)[k],
        decreases len / 2 - i,
    {
        let low = scratch[i];
        let high = scratch[len - 1 - i];
        scratch[i] = high;
        scratch[len - 1 - i] = low;
        i += 1;
    }
    assert(scratch@ =~= old(scratch)@.reverse());
}

/// Adds a scratch vector to a running sum, slot by slot.
pub fn add_scratch(sum: &mut Vec<u64>, scratch: &Vec<u64>)
    requires
        old(sum).len() == scratch.len(),
        forall|i: int| 0 <= i < scratch.len() ==> old(sum)[i] + scratch[i] <= u64::MAX,
    ensures
        final(sum).len() == old(sum).len(),
        forall|i: int| 0 <= i < scratch.len() ==> #[trigger] final(sum)[i] == old(sum)[i] + scratch[i],
{
    let mut i: usize = 0;
    while i < scratch.len()
        invariant
            i <= scratch.len(),
            sum.len() == scratch.len(),
            sum.len() == old(sum).len(),
            forall|k: int| 0 <= k < scratch.len() ==> old(sum)[k] + scratch[k] <= u64::MAX,
            forall|k: int| 0 <= k < i ==> #[trigger] sum[k] == old(sum)[k] + scratch[k],
            forall|k: int| i <= k < scratch.len() ==> #[trigger] sum[k] == old(sum)[k],
        decreases scratch.len() - i,
    {
        sum[i] = sum[i] + scratch[i];
        i += 1;
    }
}

/// The coverage vector of a list of pairs around a reference point with
/// `left` positions before it and `right` positions after it. Each pair marks
/// the offsets from its clipped start to its clipped end, both included, in a
/// scratch vector of `left + right + 1` slots; the scratch vector is turned
/// end for end when the pair's window lies on the reverse strand; the scratch
/// vectors are summed, and the last slot of the sum is dropped.
///
/// Fails with `CoordinateOverflow` when `left + right + 1` slots cannot be
/// addressed.
pub fn coverage(input: &[OverlapPair], left: u64, right: u64) -> (cov: Result<Vec<u64>, ProfileError>)
    ensures
        match cov {
            Ok(depths) => left + right < usize::MAX && depths@ == coverage_of(input@, left, right),
            Err(e) => e == ProfileError::CoordinateOverflow && left + right >= usize::MAX,
        },
{
    if left > u64::MAX - right {
        return Err(ProfileError::CoordinateOverflow);
    }
    if left + right >= usize::MAX as u64 {
        return Err(ProfileError::CoordinateOverflow);
    }
    let size: usize = (left + right) as usize;
    let slots: usize = size + 1;
    let mut sum: Vec<u64> = Vec::new();
    let mut n: usize = 0;
    while n < slots
        invariant
            n <= slots,
            sum.len() == n,
            forall|i: int| 0 <= i < n ==> #[trigger] sum[i] == 0,
        decreases slots - n,
    {
        sum.push(0);
        n += 1;
    }
    let mut k: usize = 0;
    while k < input.len()
        invariant
            k <= input.len(),
            sum.len() == slots,
            forall|i: int| 0 <= i < slots ==> #[trigger] sum[i] == depth_at(input@.take(k as int), slots as nat, i),
            forall|i: int| 0 <= i < slots ==> #[trigger] sum[i] <= k,
        decreases input.len() - k,
    {
        let mut scratch = scratch_vector(&input[k], slots);
        if input[k].window.strand == Strand::Reverse {
            reverse_scratch(&mut scratch);
        }
        assert(scratch@ == oriented(input[k as int], slots as nat));
        assert forall|i: int| 0 <= i < slots implies #[trigger] scratch[i] <= 1 by {
            assert(scratch_of(input[k as int], slots as nat)[slots - 1 - i] <= 1);
        }
        let ghost before = sum@;
        add_scratch(&mut sum, &scratch);
        proof {
            let head = input@.take(k as int);
            let next = input@.take(k + 1);
            assert(next.drop_last() =~= head);
            assert(next.last() == input[k as int]);
            assert forall|i: int| 0 <= i < slots implies #[trigger] sum[i] == depth_at(next, slots as nat, i) by {
                assert(sum[i] == before[i] + scratch[i]);
            }
            assert forall|i: int| 0 <= i < slots implies #[trigger] sum[i] <= k + 1 by {
                assert(sum[i] == before[i] + scratch[i]);
                assert(scratch[i] <= 1);
            }
        }
        k += 1;
    }
    assert(input@.take(input.len() as int) =~= input@);
    sum.truncate(size);
    assert(sum@ =~= coverage_of(input@, left, right));
    Ok(sum)
}

/// Reads that lie wholly outside every window of their chromosome are paired
/// with no window, and the coverage vector is zero at every offset.
pub proof fn lemma_outside_reads_leave_no_coverage(
    pairs: Seq<OverlapPair>,
    reads: Seq<IntervalView>,
    windows: Seq<IntervalView>,
    upstream: u64,
    downstream: u64,
)
    requires
        is_intersection(pairs, reads, windows),
        forall|i: int, j: int|
            0 <= i < reads.len() && 0 <= j < windows.len() && (#[trigger] reads[i]).chrom == (
            #[trigger] windows[j]).chrom ==> lies_outside(reads[i], windows[j]),
    ensures
        pairs.len() == 0,
        coverage_of(pairs, upstream, downstream) == Seq::new((upstream + downstream) as nat, |i: int| 0u64),
{
    if pairs.len() > 0 {
        let pair = pairs[0];
        assert(reads[pair.read_index as int].chrom == windows[pair.window_index as int].chrom);
    }
    assert(coverage_of(pairs, upstream, downstream) =~= Seq::new(
        (upstream + downstream) as nat,
        |i: int| 0u64,
    ));
}

proof fn lemma_depth_without(pairs: Seq<OverlapPair>, slots: nat, i: int, t: int)
    requires
        0 <= t < pairs.len(),
    ensures
        depth_at(pairs, slots, i) == depth_at(pairs.remove(t), slots, i) + oriented(pairs[t], slots)[i] as nat,
    decreases pairs.len(),
{
    if t == pairs.len() - 1 {
        assert(pairs.remove(t) =~= pairs.drop_last());
    } else {
        lemma_depth_without(pairs.drop_last(), slots, i, t);
        assert(pairs.remove(t).drop_last() =~= pairs.drop_last().remove(t));
        assert(pairs.remove(t).last() == pairs.last());
    }
}

proof fn lemma_depth_of_rearranged(a: Seq<OverlapPair>, b: Seq<OverlapPair>, slots: nat, i: int)
    requires
        a.to_multiset() == b.to_multiset(),
    ensures
        depth_at(a, slots, i) == depth_at(b, slots, i),
    decreases a.len(),
{
    a.to_multiset_ensures();
    b.to_multiset_ensures();
    if a.len() > 0 {
        let x = a.last();
        assert(a.contains(x)) by {
            assert(a[a.len() - 1] == x);
        }
        assert(a.to_multiset().count(x) > 0);
        assert(b.to_multiset().count(x) > 0);
        assert(b.contains(x));
        let t = choose|t: int| 0 <= t < b.len() && b[t] == x;
        assert(a.drop_last() =~= a.remove(a.len() - 1));
        to_multiset_remove(a, a.len() - 1);
        to_multiset_remove(b, t);
        lemma_depth_of_rearranged(a.drop_last(), b.remove(t), slots, i);
        lemma_depth_without(b, slots, i, t);
    }
}

proof fn lemma_intersection_members(
    a: Seq<OverlapPair>,
    b: Seq<OverlapPair>,
    reads: Seq<IntervalView>,
    windows: Seq<IntervalView>,
)
    requires
        is_intersection(a, reads, windows),
        is_intersection(b, reads, windows),
    ensures
        a.no_duplicates(),
        forall|x: OverlapPair| a.contains(x) ==> b.contains(x),
{
    assert forall|x: OverlapPair| a.contains(x) implies b.contains(x) by {
        let k = choose|k: int| 0 <= k < a.len() && a[k] == x;
        assert(is_pair_of(a[k], reads, windows));
        let i = x.read_index as int;
        let j = x.window_index as int;
        assert(read_hits_window(reads[i], windows[j]));
        let l = choose|l: int| 0 <= l < b.len() && (#[trigger] b[l]).read_index == i && b[l].window_index == j;
        assert(is_pair_of(b[l], reads, windows));
        assert(b[l] == x);
    }
}

/// The coverage of a set of reads over a set of windows does not depend on
/// the order in which their pairs are listed: any two lists that hold every
/// hit exactly once give the same coverage vector.
pub proof fn lemma_coverage_ignores_order(
    a: Seq<OverlapPair>,
    b: Seq<OverlapPair>,
    reads: Seq<IntervalView>,
    windows: Seq<IntervalView>,
    upstream: u64,
    downstream: u64,
)
    requires
        is_intersection(a, reads, windows),
        is_intersection(b, reads, windows),
    ensures
        coverage_of(a, upstream, downstream) == coverage_of(b, upstream, downstream),
{
    lemma_intersection_members(a, b, reads, windows);
    lemma_intersection_members(b, a, reads, windows);
    a.to_multiset_ensures();
    b.to_multiset_ensures();
    a.lemma_multiset_has_no_duplicates();
    b.lemma_multiset_has_no_duplicates();
    assert(a.to_multiset() =~= b.to_multiset()) by {
        assert forall|x: OverlapPair| a.to_multiset().count(x) == b.to_multiset().count(x) by {
            if a.contains(x) {
                assert(b.contains(x));
            } else if b.contains(x) {
                assert(a.contains(x));
            }
        }
    }
    let slots = (upstream + downstream + 1) as nat;
    assert forall|i: int| 0 <= i < upstream + downstream implies depth_at(a, slots, i) == depth_at(b, slots, i) by {
        lemma_depth_of_rearranged(a, b, slots, i);
    }
    assert(coverage_of(a, upstream, downstream) =~= coverage_of(b, upstream, downstream));
}

/// One read inside its window gives one run of ones. For a window of
/// `upstream + downstream` positions and a read that begins in it and ends
/// before its end, the coverage vector is one at the offsets of the read's
/// start through the read's end, both included, and zero elsewhere. For a
/// window on the reverse strand the offsets are counted back from
/// `upstream + downstream`.
pub proof fn lemma_one_read_inside_its_window(pairs: Seq<OverlapPair>, upstream: u64, downstream: u64)
    requires
        pairs.len() == 1,
        pairs[0].window.end - pairs[0].window.start == upstream + downstream,
        pairs[0].window.start <= pairs[0].read.start <= pairs[0].read.end < pairs[0].window.end,
    ensures
        coverage_of(pairs, upstream, downstream).len() == upstream + downstream,
        forall|i: int|
            0 <= i < upstream + downstream ==> #[trigger] coverage_of(pairs, upstream, downstream)[i] == if {
                let offset = if pairs[0].window.strand == Strand::Reverse {
                    upstream + downstream - i
                } else {
                    i
                };
                pairs[0].read.start - pairs[0].window.start <= offset <= pairs[0].read.end - pairs[0].window.start
            } {
                1u64
            } else {
                0u64
            },
{
    let pair = pairs[0];
    let slots = (upstream + downstream + 1) as nat;
    assert(pairs.drop_last() =~= Seq::<OverlapPair>::empty());
    assert(pairs.last() == pair);
    assert forall|i: int| 0 <= i < upstream + downstream implies #[trigger] coverage_of(
        pairs,
        upstream,
        downstream,
    )[i] == if {
        let offset = if pair.window.strand == Strand::Reverse {
            upstream + downstream - i
        } else {
            i
        };
        pair.read.start - pair.window.start <= offset <= pair.read.end - pair.window.start
    } {
        1u64
    } else {
        0u64
    } by {
        assert(depth_at(pairs.drop_last(), slots, i) == 0);
        assert(depth_at(pairs, slots, i) == oriented(pair, slots)[i] as nat);
        if pair.window.strand == Strand::Reverse {
            assert(oriented(pair, slots)[i] == scratch_of(pair, slots)[upstream + downstream - i]);
        }
    }
}

/// Reversing a scratch vector twice gives the vector back.
pub proof fn lemma_reverse_twice(scratch: Seq<u64>)
    ensures
        scratch.reverse().reverse() == scratch,
{
    assert(scratch.reverse().reverse() =~= scratch);
}

} // verus!
