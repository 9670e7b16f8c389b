use vstd::prelude::*;
use crate::assemble::{
    assemble, assembled, check_read_count, labelled_views, read_count_suits, series_views, Series, SeriesView,
};
use crate::coverage::{coverage, coverage_of, lemma_coverage_ignores_order};
use crate::error::ProfileError;
use crate::index::{
    hits_in_order, hits_of_read, intersect_reads, is_intersection, lemma_hits_in_order_is_an_intersection,
    lies_outside, read_hits_window, OverlapPair, WindowIndex,
};
use crate::interval::{
    extend, extended, interval_views, window_views, ExtendedWindow, GenomicInterval, IntervalView, ReferencePoint,
};
use crate::normalize::{normalize, normalized, NormalizedProfile, ProfileView};
use crate::records::{count_lines, intervals_of_bytes, parse_intervals};

verus! {

/// The windows of a list of regions, in their order, or the error of the
/// first region that has no window.
pub open spec fn extended_all(regions: Seq<IntervalView>, mode: ReferencePoint, upstream: u64, downstream: u64)
    -> Result<Seq<IntervalView>, ProfileError>
    decreases regions.len(),
{
    if regions.len() == 0 {
        Ok(Seq::empty())
    } else {
        match extended_all(regions.drop_last(), mode, upstream, downstream) {
            Err(e) => Err(e),
            Ok(windows) => match extended(regions.last(), mode, upstream, downstream) {
                Err(e) => Err(e),
                Ok(window) => Ok(windows.push(window)),
            },
        }
    }
}

/// Widens every region of a list into its window.
pub fn extend_all(regions: &Vec<GenomicInterval>, mode: ReferencePoint, upstream: u64, downstream: u64)
    -> (windows: Result<Vec<ExtendedWindow>, ProfileError>)
    ensures
        match windows {
            Ok(made) => extended_all(interval_views(regions@), mode, upstream, downstream) == Ok::<
                Seq<IntervalView>,
                ProfileError,
            >(window_views(made@)),
            Err(e) => extended_all(interval_views(regions@), mode, upstream, downstream) == Err::<
                Seq<IntervalView>,
                ProfileError,
            >(e),
        },
{
    let ghost all = interval_views(regions@);
    let mut made: Vec<ExtendedWindow> = Vec::new();
    let mut i: usize = 0;
    assert(window_views(made@) =~= Seq::<IntervalView>::empty());
    while i < regions.len()
        invariant
            i <= regions.len(),
            all == interval_views(regions@),
            extended_all(all.take(i as int), mode, upstream, downstream) == Ok::<Seq<IntervalView>, ProfileError>(
                window_views(made@),
            ),
        decreases regions.len() - i,
    {
        proof {
            assert(all.take(i + 1).drop_last() =~= all.take(i as int));
            assert(all.take(i + 1).last() == regions[i as int]@);
        }
        match extend(&regions[i], mode, upstream, downstream) {
            Err(e) => {
                proof {
                    lemma_extended_all_stays_refused(all, mode, upstream, downstream, i + 1);
                }
                return Err(e);
            },
            Ok(window) => {
                let ghost before = window_views(made@);
                made.push(window);
                assert(window_views(made@) =~= before.push(window@));
            },
        }
        i += 1;
    }
    assert(all.take(regions.len() as int) =~= all);
    Ok(made)
}

proof fn lemma_extended_all_stays_refused(
    regions: Seq<IntervalView>,
    mode: ReferencePoint,
    upstream: u64,
    downstream: u64,
    n: int,
)
    requires
        0 <= n <= regions.len(),
        extended_all(regions.take(n), mode, upstream, downstream) is Err,
    ensures
        extended_all(regions, mode, upstream, downstream) == extended_all(regions.take(n), mode, upstream, downstream),
    decreases regions.len() - n,
{
    if n == regions.len() {
        assert(regions.take(n) =~= regions);
    } else {
        assert(regions.take(n + 1).drop_last() =~= regions.take(n));
        lemma_extended_all_stays_refused(regions, mode, upstream, downstream, n + 1);
    }
}

proof fn lemma_extended_all_keeps_the_count(
    regions: Seq<IntervalView>,
    mode: ReferencePoint,
    upstream: u64,
    downstream: u64,
)
    ensures
        extended_all(regions, mode, upstream, downstream) is Ok ==> extended_all(
            regions,
            mode,
            upstream,
            downstream,
        )->Ok_0.len() == regions.len(),
    decreases regions.len(),
{
    if regions.len() > 0 {
        lemma_extended_all_keeps_the_count(regions.drop_last(), mode, upstream, downstream);
    }
}

/// The windows that a region file gives.
pub open spec fn windows_of_bytes(regions: Seq<u8>, mode: ReferencePoint, upstream: u64, downstream: u64) -> Result<
    Seq<IntervalView>,
    ProfileError,
> {
    match intervals_of_bytes(regions) {
        None => Err(ProfileError::ParseError),
        Some(read) => extended_all(read, mode, upstream, downstream),
    }
}

/// The intervals of every read file, when every file can be read.
pub open spec fn reads_of_files(files: Seq<Vec<u8>>) -> Option<Seq<Seq<IntervalView>>> {
    if forall|f: int| 0 <= f < files.len() ==> intervals_of_bytes(#[trigger] files[f]@) is Some {
        Some(Seq::new(files.len(), |f: int| intervals_of_bytes(files[f]@)->0))
    } else {
        None
    }
}

/// The windows and the reads that the input files give. The region file is
/// read and its regions are widened first; the read files follow in order.
pub open spec fn inputs_of(
    regions: Seq<u8>,
    reads: Seq<Vec<u8>>,
    mode: ReferencePoint,
    upstream: u64,
    downstream: u64,
) -> Result<(Seq<IntervalView>, Seq<Seq<IntervalView>>), ProfileError> {
    match windows_of_bytes(regions, mode, upstream, downstream) {
        Err(e) => Err(e),
        Ok(windows) => match reads_of_files(reads) {
            None => Err(ProfileError::ParseError),
            Some(read) => Ok((windows, read)),
        },
    }
}

/// The read files of a run, each as the plain values of its intervals.
pub open spec fn file_views(files: Seq<Vec<GenomicInterval>>) -> Seq<Seq<IntervalView>> {
    Seq::new(files.len(), |f: int| interval_views(files[f]@))
}

/// Reads the region file, widens its regions, indexes the windows, and reads
/// every read file.
pub fn read_inputs(regions: &[u8], reads: &Vec<Vec<u8>>, mode: ReferencePoint, upstream: u64, downstream: u64)
    -> (inputs: Result<(WindowIndex, Vec<Vec<GenomicInterval>>), ProfileError>)
    ensures
        match inputs {
            Ok((index, files)) => inputs_of(regions@, reads@, mode, upstream, downstream) == Ok::<
                (Seq<IntervalView>, Seq<Seq<IntervalView>>),
                ProfileError,
            >((index@, file_views(files@))),
            Err(e) => inputs_of(regions@, reads@, mode, upstream, downstream) == Err::<
                (Seq<IntervalView>, Seq<Seq<IntervalView>>),
                ProfileError,
            >(e),
        },
{
    let parsed = match parse_intervals(regions) {
        Ok(parsed) => parsed,
        Err(e) => {
            return Err(e);
        },
    };
    let windows = match extend_all(&parsed, mode, upstream, downstream) {
        Ok(windows) => windows,
        Err(e) => {
            return Err(e);
        },
    };
    let index = WindowIndex::build(windows);
    let mut files: Vec<Vec<GenomicInterval>> = Vec::new();
    let mut f: usize = 0;
    while f < reads.len()
        invariant
            f <= reads.len(),
            files.len() == f,
            windows_of_bytes(regions@, mode, upstream, downstream) == Ok::<Seq<IntervalView>, ProfileError>(index@),
            forall|g: int|
                0 <= g < f ==> intervals_of_bytes(#[trigger] reads[g]@) == Some(interval_views(files[g]@)),
        decreases reads.len() - f,
    {
        match parse_intervals(reads[f].as_slice()) {
            Ok(intervals) => {
                files.push(intervals);
            },
            Err(e) => {
                assert(intervals_of_bytes(reads@[f as int]@) is None);
                assert(reads_of_files(reads@) is None);
                return Err(e);
            },
        }
        f += 1;
    }
    assert(file_views(files@) =~= Seq::new(reads@.len(), |f: int| intervals_of_bytes(reads@[f]@)->0));
    Ok((index, files))
}

/// Why `intersect` fails, if it does.
pub open spec fn intersect_refusal(
    regions: Seq<u8>,
    reads: Seq<Vec<u8>>,
    mode: ReferencePoint,
    upstream: u64,
    downstream: u64,
) -> Option<ProfileError> {
    match inputs_of(regions, reads, mode, upstream, downstream) {
        Err(e) => Some(e),
        Ok(_) => None,
    }
}

/// Pairs the reads of every read file with the windows of the region file.
/// `regions` and each element of `reads` hold the bytes of a tab-separated
/// file. Every region is widened around the reference point `rp` by `left`
/// positions before it and `right` positions after it; the result holds, for
/// each read file in order, every read paired with every window it hits.
///
/// Fails with `ParseError` when a file cannot be read,
/// `ArithmeticUnderflow` when a window would begin before coordinate zero,
/// and `CoordinateOverflow` when it would end beyond the last coordinate.
pub fn intersect(regions: &[u8], reads: &Vec<Vec<u8>>, rp: ReferencePoint, left: u64, right: u64) -> (pairs: Result<
    Vec<Vec<OverlapPair>>,
    ProfileError,
>)
    ensures
        match pairs {
            Ok(lists) => {
                &&& inputs_of(regions@, reads@, rp, left, right) is Ok
                &&& lists.len() == reads.len()
                &&& forall|f: int|
                    0 <= f < lists.len() ==> is_intersection(
                        (#[trigger] lists[f])@,
                        inputs_of(regions@, reads@, rp, left, right)->Ok_0.1[f],
                        inputs_of(regions@, reads@, rp, left, right)->Ok_0.0,
                    )
            },
            Err(e) => intersect_refusal(regions@, reads@, rp, left, right) == Some(e),
        },
{
    let (index, files) = match read_inputs(regions, reads, rp, left, right) {
        Ok(inputs) => inputs,
        Err(e) => {
            return Err(e);
        },
    };
    assert(reads_of_files(reads@) is Some);
    assert(file_views(files@).len() == reads.len());
    assert forall|g: int| 0 <= g < files.len() implies #[trigger] file_views(files@)[g] == interval_views(
        files[g]@,
    ) by {}
    let mut lists: Vec<Vec<OverlapPair>> = Vec::new();
    let mut f: usize = 0;
    while f < files.len()
        invariant
            f <= files.len(),
            lists.len() == f,
            forall|g: int| 0 <= g < f ==> is_intersection((#[trigger] lists[g])@, interval_views(files[g]@), index@),
        decreases files.len() - f,
    {
        lists.push(intersect_reads(&index, &files[f]));
        f += 1;
    }
    Ok(lists)
}

/// The coverage vector of `reads` over `windows`: that of their hits, taken
/// read by read and window by window. Any other list that holds every hit
/// exactly once has the same coverage.
pub open spec fn coverage_between(
    reads: Seq<IntervalView>,
    windows: Seq<IntervalView>,
    upstream: u64,
    downstream: u64,
) -> Seq<u64> {
    coverage_of(hits_in_order(reads, windows, reads.len()), upstream, downstream)
}

proof fn lemma_no_hits_of_read(reads: Seq<IntervalView>, windows: Seq<IntervalView>, i: int, n: nat)
    requires
        n <= windows.len(),
        forall|j: int| 0 <= j < n ==> !read_hits_window(reads[i], #[trigger] windows[j]),
    ensures
        hits_of_read(reads, windows, i, n) == Seq::<OverlapPair>::empty(),
    decreases n,
{
    if n > 0 {
        lemma_no_hits_of_read(reads, windows, i, (n - 1) as nat);
    }
}

proof fn lemma_no_hits_in_order(reads: Seq<IntervalView>, windows: Seq<IntervalView>, m: nat)
    requires
        m <= reads.len(),
        forall|i: int, j: int|
            0 <= i < m && 0 <= j < windows.len() ==> !read_hits_window(#[trigger] reads[i], #[trigger] windows[j]),
    ensures
        hits_in_order(reads, windows, m) == Seq::<OverlapPair>::empty(),
    decreases m,
{
    if m > 0 {
        lemma_no_hits_in_order(reads, windows, (m - 1) as nat);
        lemma_no_hits_of_read(reads, windows, m - 1, windows.len());
        assert(Seq::<OverlapPair>::empty() + Seq::<OverlapPair>::empty() =~= Seq::<OverlapPair>::empty());
    }
}

/// Reads that lie wholly outside every window of their chromosome leave the
/// coverage between the reads and the windows at zero.
pub proof fn lemma_outside_reads_have_no_coverage(
    reads: Seq<IntervalView>,
    windows: Seq<IntervalView>,
    upstream: u64,
    downstream: u64,
)
    requires
        forall|i: int, j: int|
            0 <= i < reads.len() && 0 <= j < windows.len() && (#[trigger] reads[i]).chrom == (
            #[trigger] windows[j]).chrom ==> lies_outside(reads[i], windows[j]),
    ensures
        coverage_between(reads, windows, upstream, downstream) == Seq::new(
            (upstream + downstream) as nat,
            |i: int| 0u64,
        ),
{
    lemma_no_hits_in_order(reads, windows, reads.len());
    assert(coverage_between(reads, windows, upstream, downstream) =~= Seq::new(
        (upstream + downstream) as nat,
        |i: int| 0u64,
    ));
}

/// The profile of one read file over the windows: its coverage, normalized
/// by the number of intervals in the read file and the number of intervals
/// in the region file, which is the number of windows.
pub open spec fn profile_of(
    reads: Seq<IntervalView>,
    windows: Seq<IntervalView>,
    upstream: u64,
    downstream: u64,
    bin_size: nat,
) -> Result<ProfileView, ProfileError> {
    if upstream + downstream >= usize::MAX {
        Err(ProfileError::CoordinateOverflow)
    } else {
        normalized(coverage_between(reads, windows, upstream, downstream), reads.len(), windows.len(), bin_size)
    }
}

/// The profiles of the read files, in their order, or the error that stops
/// the first of them.
pub open spec fn profiles_of(
    windows: Seq<IntervalView>,
    files: Seq<Seq<IntervalView>>,
    upstream: u64,
    downstream: u64,
    bin_size: nat,
) -> Result<Seq<ProfileView>, ProfileError> {
    if files.len() == 0 {
        Ok(Seq::empty())
    } else {
        match profile_of(files[0], windows, upstream, downstream, bin_size) {
            Err(e) => Err(e),
            Ok(_) => Ok(
                Seq::new(files.len(), |f: int| profile_of(files[f], windows, upstream, downstream, bin_size)->Ok_0),
            ),
        }
    }
}

/// A region file without intervals stops the run with `DivisionByZero` as
/// soon as the first read file is to be normalized.
pub proof fn lemma_no_windows_no_profiles(files: Seq<Seq<IntervalView>>, upstream: u64, downstream: u64, bin_size: nat)
    requires
        files.len() > 0,
        upstream + downstream < usize::MAX,
    ensures
        profiles_of(Seq::<IntervalView>::empty(), files, upstream, downstream, bin_size) == Err::<
            Seq<ProfileView>,
            ProfileError,
        >(ProfileError::DivisionByZero),
{
}

/// The labels of a run, each as its characters.
pub open spec fn label_views(labels: Seq<String>) -> Seq<Seq<char>> {
    Seq::new(labels.len(), |f: int| labels[f]@)
}

/// What `profile_series` returns, over plain values.
pub open spec fn series_of(
    regions: Seq<u8>,
    reads: Seq<Vec<u8>>,
    labels: Seq<Seq<char>>,
    mode: ReferencePoint,
    upstream: u64,
    downstream: u64,
    bin_size: nat,
    relative: bool,
) -> Result<Seq<SeriesView>, ProfileError> {
    if !read_count_suits(reads.len(), relative) {
        Err(ProfileError::UnsupportedReadCount)
    } else {
        match inputs_of(regions, reads, mode, upstream, downstream) {
            Err(e) => Err(e),
            Ok((windows, files)) => match profiles_of(windows, files, upstream, downstream, bin_size) {
                Err(e) => Err(e),
                Ok(profiles) => assembled(Seq::new(profiles.len(), |f: int| (profiles[f], labels[f])), relative),
            },
        }
    }
}

/// Runs the whole computation on the contents of the input files: the
/// regions are widened around the reference point and every read file is
/// matched against the windows; then, file by file, the coverage of the pairs
/// is accumulated and normalized by the number of intervals in the read file
/// and in the region file; at last the profiles are assembled into the series
/// to draw, one label per read file.
///
/// The errors come in this order: `UnsupportedReadCount` when `relative` is
/// set and there are not two read files; the errors of the region file and of
/// its windows; `ParseError` for a read file; `CoordinateOverflow` for a
/// window too long to accumulate; `DivisionByZero` for a region file without
/// intervals.
pub fn profile_series(
    regions: &[u8],
    reads: &Vec<Vec<u8>>,
    labels: Vec<String>,
    rp: ReferencePoint,
    left: u64,
    right: u64,
    bin_size: usize,
    relative: bool,
) -> (series: Result<Vec<Series>, ProfileError>)
    requires
        bin_size > 0,
        labels.len() == reads.len(),
    ensures
        match series {
            Ok(made) => series_of(regions@, reads@, label_views(labels@), rp, left, right, bin_size as nat, relative)
                == Ok::<Seq<SeriesView>, ProfileError>(series_views(made@)),
            Err(e) => series_of(regions@, reads@, label_views(labels@), rp, left, right, bin_size as nat, relative)
                == Err::<Seq<SeriesView>, ProfileError>(e),
        },
{
    match check_read_count(reads.len(), relative) {
        Ok(()) => {},
        Err(e) => {
            return Err(e);
        },
    }
    let lists = match intersect(regions, reads, rp, left, right) {
        Ok(lists) => lists,
        Err(e) => {
            return Err(e);
        },
    };
    let ghost windows = inputs_of(regions@, reads@, rp, left, right)->Ok_0.0;
    let ghost files = inputs_of(regions@, reads@, rp, left, right)->Ok_0.1;
    assert(reads_of_files(reads@) is Some);
    assert(files.len() == reads.len());
    let region_count = match count_lines(regions) {
        Ok(count) => count,
        Err(e) => {
            return Err(e);
        },
    };
    proof {
        lemma_extended_all_keeps_the_count(intervals_of_bytes(regions@)->0, rp, left, right);
    }
    assert(windows.len() == region_count);
    let mut rest = labels;
    let mut made: Vec<(NormalizedProfile, String)> = Vec::new();
    let mut f: usize = 0;
    while f < reads.len()
        invariant
            f <= reads.len(),
            bin_size > 0,
            reads.len() == labels.len(),
            lists.len() == reads.len(),
            files.len() == reads.len(),
            windows.len() == region_count,
            read_count_suits(reads.len() as nat, relative),
            inputs_of(regions@, reads@, rp, left, right) == Ok::<
                (Seq<IntervalView>, Seq<Seq<IntervalView>>),
                ProfileError,
            >((windows, files)),
            forall|g: int| 0 <= g < lists.len() ==> is_intersection((#[trigger] lists[g])@, files[g], windows),
            made.len() == f,
            rest@ == labels@.subrange(f as int, labels.len() as int),
            forall|g: int|
                0 <= g < f ==> profile_of(files[g], windows, left, right, bin_size as nat) == Ok::<
                    ProfileView,
                    ProfileError,
                >((#[trigger] made[g]).0@) && made[g].1 == labels[g],
        decreases reads.len() - f,
    {
        assert(files[f as int] == intervals_of_bytes(reads@[f as int]@)->0);
        let read_count = match count_lines(reads[f].as_slice()) {
            Ok(count) => count,
            Err(e) => {
                return Err(e);
            },
        };
        let depths = match coverage(lists[f].as_slice(), left, right) {
            Ok(depths) => depths,
            Err(e) => {
                assert(profile_of(files[0], windows, left, right, bin_size as nat) == Err::<ProfileView, ProfileError>(
                    e,
                ));
                return Err(e);
            },
        };
        proof {
            let reads_here = files[f as int];
            assert(is_intersection(lists[f as int]@, reads_here, windows));
            lemma_hits_in_order_is_an_intersection(reads_here, windows);
            lemma_coverage_ignores_order(
                lists[f as int]@,
                hits_in_order(reads_here, windows, reads_here.len()),
                reads_here,
                windows,
                left,
                right,
            );
        }
        match normalize(depths.as_slice(), read_count, region_count, bin_size) {
            Err(e) => {
                assert(profile_of(files[0], windows, left, right, bin_size as nat) == Err::<ProfileView, ProfileError>(
                    e,
                ));
                return Err(e);
            },
            Ok(profile) => {
                let label = rest.remove(0);
                made.push((profile, label));
                assert(rest@ =~= labels@.subrange(f + 1, labels.len() as int));
            },
        }
        f += 1;
    }
    proof {
        let profiles = profiles_of(windows, files, left, right, bin_size as nat);
        if reads.len() > 0 {
            assert(profile_of(files[0], windows, left, right, bin_size as nat) == Ok::<ProfileView, ProfileError>(
                made[0].0@,
            ));
        }
        assert(profiles is Ok);
        assert(labelled_views(made@) =~= Seq::new(
            profiles->Ok_0.len(),
            |f: int| (profiles->Ok_0[f], label_views(labels@)[f]),
        ));
    }
    assemble(made, relative)
}

} // verus!
