use coverage_profile::error::ProfileError;
use coverage_profile::index::{intersect_reads, OverlapPair, Span, WindowIndex};
use coverage_profile::interval::{extend, ExtendedWindow, GenomicInterval, ReferencePoint, Strand};
use coverage_profile::pipeline::{extend_all, intersect, read_inputs};

fn interval(chrom: &str, start: u64, end: u64, strand: Strand) -> GenomicInterval {
    GenomicInterval::new(chrom.to_string(), start, end, strand).unwrap()
}

/// The window `[start, end)` on `chrom`.
fn window(chrom: &str, start: u64, end: u64, strand: Strand) -> ExtendedWindow {
    extend(&interval(chrom, start, start, strand), ReferencePoint::Start, 0, end - start).unwrap()
}

fn sorted(mut hits: Vec<usize>) -> Vec<usize> {
    hits.sort();
    hits
}

fn index_pairs(pairs: &[OverlapPair]) -> Vec<(usize, usize)> {
    let mut found: Vec<(usize, usize)> = pairs.iter().map(|p| (p.read_index, p.window_index)).collect();
    found.sort();
    found
}

#[test]
fn read_start_must_lie_in_the_window() {
    let index = WindowIndex::build(vec![window("chr1", 100, 200, Strand::Forward)]);
    let hits = |start: u64| index.overlapping(&interval("chr1", start, start + 10, Strand::Unknown));
    assert_eq!(hits(0), Vec::<usize>::new());
    assert_eq!(hits(99), Vec::<usize>::new());
    assert_eq!(hits(100), vec![0]);
    assert_eq!(hits(101), vec![0]);
    assert_eq!(hits(150), vec![0]);
    assert_eq!(hits(199), vec![0]);
    assert_eq!(hits(200), Vec::<usize>::new());
    assert_eq!(hits(201), Vec::<usize>::new());
}

#[test]
fn read_at_the_first_coordinate_of_a_window_is_paired() {
    let reads = vec![b"chr1\t70\t80\n".to_vec()];
    let lists = intersect(b"chr1\t100\t200\n", &reads, ReferencePoint::Start, 30, 50).unwrap();
    assert_eq!(lists.len(), 1);
    assert_eq!(lists[0].len(), 1);
    let pair = lists[0][0];
    assert_eq!((pair.read_index, pair.window_index), (0, 0));
    assert_eq!(pair.read, Span { start: 70, end: 80, strand: Strand::Unknown });
    assert_eq!(pair.window, Span { start: 70, end: 150, strand: Strand::Unknown });
}

#[test]
fn read_at_the_end_of_a_window_is_not_paired() {
    let reads = vec![b"chr1\t150\t160\nchr1\t69\t150\n".to_vec()];
    let lists = intersect(b"chr1\t100\t200\n", &reads, ReferencePoint::Start, 30, 50).unwrap();
    assert!(lists[0].is_empty());
}

#[test]
fn window_at_coordinate_zero_is_hit_from_zero() {
    let index = WindowIndex::build(vec![window("chr1", 0, 10, Strand::Forward)]);
    assert_eq!(index.overlapping(&interval("chr1", 0, 5, Strand::Unknown)), vec![0]);
    assert_eq!(index.overlapping(&interval("chr1", 9, 12, Strand::Unknown)), vec![0]);
    assert!(index.overlapping(&interval("chr1", 10, 12, Strand::Unknown)).is_empty());
}

#[test]
fn read_at_the_last_coordinate_hits_nothing() {
    let index = WindowIndex::build(vec![
        window("chr1", u64::MAX - 10, u64::MAX, Strand::Forward),
        window("chr1", 0, u64::MAX, Strand::Forward),
    ]);
    assert!(index.overlapping(&interval("chr1", u64::MAX, u64::MAX, Strand::Unknown)).is_empty());
    assert_eq!(sorted(index.overlapping(&interval("chr1", u64::MAX - 1, u64::MAX, Strand::Unknown))), vec![0, 1]);
    assert_eq!(sorted(index.overlapping(&interval("chr1", u64::MAX - 10, u64::MAX, Strand::Unknown))), vec![0, 1]);
    assert_eq!(sorted(index.overlapping(&interval("chr1", u64::MAX - 11, u64::MAX, Strand::Unknown))), vec![1]);
}

#[test]
fn touching_windows_share_no_read() {
    let index = WindowIndex::build(vec![
        window("chr1", 100, 200, Strand::Forward),
        window("chr1", 200, 300, Strand::Forward),
    ]);
    assert_eq!(index.overlapping(&interval("chr1", 199, 250, Strand::Unknown)), vec![0]);
    assert_eq!(index.overlapping(&interval("chr1", 200, 250, Strand::Unknown)), vec![1]);
}

#[test]
fn read_end_plays_no_part_in_the_pairing() {
    let index = WindowIndex::build(vec![window("chr1", 100, 200, Strand::Forward)]);
    // starts before the window and runs into it: no hit
    assert!(index.overlapping(&interval("chr1", 50, 150, Strand::Unknown)).is_empty());
    // starts inside and runs far past it: a hit
    assert_eq!(index.overlapping(&interval("chr1", 150, 5000, Strand::Unknown)), vec![0]);
    // an empty read inside the window: a hit
    assert_eq!(index.overlapping(&interval("chr1", 150, 150, Strand::Unknown)), vec![0]);
}

#[test]
fn read_hits_only_windows_of_its_chromosome() {
    let index = WindowIndex::build(vec![
        window("chr1", 100, 200, Strand::Forward),
        window("chr2", 100, 200, Strand::Forward),
        window("chr1", 120, 300, Strand::Reverse),
    ]);
    assert_eq!(sorted(index.overlapping(&interval("chr1", 150, 160, Strand::Unknown))), vec![0, 2]);
    assert_eq!(sorted(index.overlapping(&interval("chr2", 150, 160, Strand::Unknown))), vec![1]);
    assert_eq!(sorted(index.overlapping(&interval("chr3", 150, 160, Strand::Unknown))), Vec::<usize>::new());
    assert_eq!(sorted(index.overlapping(&interval("chr", 150, 160, Strand::Unknown))), Vec::<usize>::new());
    assert_eq!(sorted(index.overlapping(&interval("chr1", 250, 260, Strand::Unknown))), vec![2]);
}

#[test]
fn equal_windows_are_each_hit() {
    let index = WindowIndex::build(vec![
        window("chr1", 10, 20, Strand::Forward),
        window("chr1", 10, 20, Strand::Forward),
        window("chr1", 10, 20, Strand::Reverse),
    ]);
    assert_eq!(sorted(index.overlapping(&interval("chr1", 15, 16, Strand::Unknown))), vec![0, 1, 2]);
}

#[test]
fn long_window_among_short_ones_is_found() {
    let mut windows = vec![window("chr1", 0, 100_000, Strand::Forward)];
    for k in 0..200u64 {
        windows.push(window("chr1", 1000 + 10 * k, 1005 + 10 * k, Strand::Forward));
    }
    let index = WindowIndex::build(windows);
    assert_eq!(index.len(), 201);
    assert_eq!(sorted(index.overlapping(&interval("chr1", 90_000, 90_001, Strand::Unknown))), vec![0]);
    assert_eq!(sorted(index.overlapping(&interval("chr1", 2003, 2004, Strand::Unknown))), vec![0, 101]);
    assert_eq!(sorted(index.overlapping(&interval("chr1", 2007, 2008, Strand::Unknown))), vec![0]);
}

#[test]
fn index_keeps_the_windows_in_order() {
    let index = WindowIndex::build(vec![
        window("chrB", 5, 6, Strand::Reverse),
        window("chrA", 1, 9, Strand::Forward),
    ]);
    assert_eq!(index.len(), 2);
    assert_eq!(index.window(0).chrom(), "chrB");
    assert_eq!(index.window(1).chrom(), "chrA");
    assert_eq!((index.window(1).start(), index.window(1).end()), (1, 9));
    assert_eq!(WindowIndex::build(Vec::new()).len(), 0);
}

#[test]
fn pairs_hold_every_hit_once() {
    let index = WindowIndex::build(vec![
        window("chr1", 100, 200, Strand::Forward),
        window("chr2", 100, 200, Strand::Reverse),
        window("chr1", 150, 250, Strand::Reverse),
    ]);
    let reads = vec![
        interval("chr1", 160, 170, Strand::Unknown),
        interval("chr2", 160, 170, Strand::Unknown),
        interval("chr1", 10, 20, Strand::Unknown),
        interval("chr1", 210, 220, Strand::Forward),
        interval("chr3", 160, 170, Strand::Unknown),
    ];
    let pairs = intersect_reads(&index, &reads);
    assert_eq!(index_pairs(&pairs), vec![(0, 0), (0, 2), (1, 1), (3, 2)]);
    for pair in &pairs {
        let read = &reads[pair.read_index];
        let window = index.window(pair.window_index);
        assert_eq!(pair.read, Span { start: read.start(), end: read.end(), strand: read.strand() });
        assert_eq!(pair.window, Span { start: window.start(), end: window.end(), strand: window.strand() });
    }
}

#[test]
fn chromosome_missing_on_either_side_gives_no_pair() {
    let index = WindowIndex::build(vec![window("chr1", 100, 200, Strand::Forward)]);
    assert!(intersect_reads(&index, &vec![interval("chr2", 150, 160, Strand::Unknown)]).is_empty());
    assert!(intersect_reads(&index, &Vec::new()).is_empty());
    let empty = WindowIndex::build(Vec::new());
    assert!(intersect_reads(&empty, &vec![interval("chr1", 150, 160, Strand::Unknown)]).is_empty());
}

#[test]
fn regions_are_widened_in_order() {
    let regions = vec![interval("chr1", 1000, 1100, Strand::Forward), interval("chr2", 500, 600, Strand::Reverse)];
    let windows = extend_all(&regions, ReferencePoint::Center, 50, 25).unwrap();
    assert_eq!(windows.len(), 2);
    assert_eq!((windows[0].start(), windows[0].end()), (1000, 1075));
    assert_eq!((windows[1].start(), windows[1].end()), (500, 575));
    assert_eq!(windows[1].strand(), Strand::Reverse);
    assert_eq!(windows[1].chrom(), "chr2");
    assert!(extend_all(&Vec::new(), ReferencePoint::Center, 50, 25).unwrap().is_empty());
}

#[test]
fn first_region_without_a_window_decides_the_error() {
    let regions = vec![
        interval("chr1", 1000, 1100, Strand::Forward),
        interval("chr1", u64::MAX - 5, u64::MAX, Strand::Forward),
        interval("chr1", 10, 20, Strand::Forward),
    ];
    assert_eq!(
        extend_all(&regions, ReferencePoint::End, 30, 1).unwrap_err(),
        ProfileError::CoordinateOverflow
    );
    let regions = vec![
        interval("chr1", 1000, 1100, Strand::Forward),
        interval("chr1", 10, 20, Strand::Forward),
        interval("chr1", u64::MAX - 5, u64::MAX, Strand::Forward),
    ];
    assert_eq!(
        extend_all(&regions, ReferencePoint::End, 30, 1).unwrap_err(),
        ProfileError::ArithmeticUnderflow
    );
}

#[test]
fn files_are_paired_with_the_windows_of_the_region_file() {
    let regions = b"chr1\t1000\t1100\ta\t0\t+\nchr2\t1000\t1100\tb\t0\t-\n";
    let reads = vec![
        b"chr1\t1020\t1030\nchr2\t1040\t1050\nchr1\t5000\t5010\n".to_vec(),
        b"chr2\t1001\t1002\n".to_vec(),
        Vec::new(),
    ];
    let lists = intersect(regions, &reads, ReferencePoint::Center, 50, 50).unwrap();
    assert_eq!(lists.len(), 3);
    assert_eq!(index_pairs(&lists[0]), vec![(0, 0), (1, 1)]);
    assert_eq!(index_pairs(&lists[1]), vec![(0, 1)]);
    assert!(lists[2].is_empty());
    let pair = lists[1][0];
    assert_eq!(pair.read, Span { start: 1001, end: 1002, strand: Strand::Unknown });
    assert_eq!(pair.window, Span { start: 1000, end: 1100, strand: Strand::Reverse });
}

#[test]
fn windows_depend_on_the_reference_point() {
    let regions = b"chr1\t1000\t2000\n";
    let reads = vec![b"chr1\t960\t970\nchr1\t1490\t1500\nchr1\t2030\t2040\n".to_vec()];
    let at_start = intersect(regions, &reads, ReferencePoint::Start, 50, 50).unwrap();
    assert_eq!(index_pairs(&at_start[0]), vec![(0, 0)]);
    let at_center = intersect(regions, &reads, ReferencePoint::Center, 50, 50).unwrap();
    assert_eq!(index_pairs(&at_center[0]), vec![(1, 0)]);
    let at_end = intersect(regions, &reads, ReferencePoint::End, 50, 50).unwrap();
    assert_eq!(index_pairs(&at_end[0]), vec![(2, 0)]);
}

#[test]
fn intersect_reports_the_first_error() {
    let good_reads = vec![b"chr1\t1020\t1030\n".to_vec()];
    let bad_reads = vec![b"chr1\t1020\t1030\n".to_vec(), b"chr1\t1020\n".to_vec()];
    assert_eq!(
        intersect(b"chr1\tx\t1100\n", &good_reads, ReferencePoint::Center, 50, 50).unwrap_err(),
        ProfileError::ParseError
    );
    assert_eq!(
        intersect(b"chr1\t10\t20\n", &good_reads, ReferencePoint::Center, 50, 50).unwrap_err(),
        ProfileError::ArithmeticUnderflow
    );
    assert_eq!(
        intersect(b"chr1\t10\t18446744073709551615\n", &good_reads, ReferencePoint::End, 50, 50).unwrap_err(),
        ProfileError::CoordinateOverflow
    );
    assert_eq!(
        intersect(b"chr1\t1000\t1100\n", &bad_reads, ReferencePoint::Center, 50, 50).unwrap_err(),
        ProfileError::ParseError
    );
    // the region file is looked at before any read file
    assert_eq!(
        intersect(b"chr1\t10\t20\n", &bad_reads, ReferencePoint::Center, 50, 50).unwrap_err(),
        ProfileError::ArithmeticUnderflow
    );
}

#[test]
fn inputs_are_read_whole() {
    let reads = vec![b"chr1\t1\t2\nchr1\t3\t4\n".to_vec(), b"chr9\t5\t6\n".to_vec()];
    let (index, files) = read_inputs(b"chr1\t100\t200\n", &reads, ReferencePoint::Start, 10, 10).unwrap();
    assert_eq!(index.len(), 1);
    assert_eq!((index.window(0).start(), index.window(0).end()), (90, 110));
    assert_eq!(files.len(), 2);
    assert_eq!(files[0].len(), 2);
    assert_eq!(files[1][0].chrom(), "chr9");
}
