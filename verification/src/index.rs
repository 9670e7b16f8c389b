use vstd::prelude::*;
use vstd::multiset::Multiset;
use crate::interval::{interval_views, window_views, ExtendedWindow, GenomicInterval, IntervalView, Strand};

verus! {

/// The coordinates and strand of an interval, without its chromosome.
#[derive(Clone, Copy, Debug, PartialEq, Eq, Structural)]
pub struct Span {
    pub start: u64,
    pub end: u64,
    pub strand: Strand,
}

/// A read paired with a window of its chromosome that it hits. The two
/// indices say which read and which window; the spans repeat their
/// coordinates, which is all that coverage needs.
#[derive(Clone, Copy, Debug, PartialEq, Eq, Structural)]
pub struct OverlapPair {
    pub read_index: usize,
    pub window_index: usize,
    pub read: Span,
    pub window: Span,
}

/// The span of an interval: what is left of it without its chromosome.
pub open spec fn span_of(interval: IntervalView) -> Span {
    Span { start: interval.start, end: interval.end, strand: interval.strand }
}

/// The overlap rule of the whole library: a read is paired with a window of
/// the same chromosome when the read's start lies in the window,
/// `window.start <= read.start < window.end`. The window's first coordinate
/// belongs to it and its end does not. Where the read ends plays no part in
/// the pairing; it only bounds the coverage the pair contributes.
pub open spec fn read_hits_window(read: IntervalView, window: IntervalView) -> bool {
    &&& read.chrom == window.chrom
    &&& window.start <= read.start
    &&& read.start < window.end
}

/// Whether a read lies wholly outside a window: it begins before the window
/// and ends at or before the window's start, or it begins at or after the
/// window's end.
pub open spec fn lies_outside(read: IntervalView, window: IntervalView) -> bool {
    ||| read.start < window.start && read.end <= window.start
    ||| read.start >= window.end
}

/// Whether `j` is the position of a window that `read` hits.
pub open spec fn hits_window_at(read: IntervalView, windows: Seq<IntervalView>, j: int) -> bool {
    0 <= j < windows.len() && read_hits_window(read, windows[j])
}

/// `pair` names a read and a window that hit, and carries their spans.
pub open spec fn is_pair_of(pair: OverlapPair, reads: Seq<IntervalView>, windows: Seq<IntervalView>) -> bool {
    &&& pair.read_index < reads.len()
    &&& pair.window_index < windows.len()
    &&& pair.read == span_of(reads[pair.read_index as int])
    &&& pair.window == span_of(windows[pair.window_index as int])
    &&& read_hits_window(reads[pair.read_index as int], windows[pair.window_index as int])
}

/// `pairs` lists every read and window that hit exactly once, in some order,
/// and nothing else.
pub open spec fn is_intersection(pairs: Seq<OverlapPair>, reads: Seq<IntervalView>, windows: Seq<IntervalView>) -> bool {
    &&& forall|k: int| 0 <= k < pairs.len() ==> is_pair_of(#[trigger] pairs[k], reads, windows)
    &&& forall|i: int, j: int|
        0 <= i < reads.len() && 0 <= j < windows.len() && #[trigger] read_hits_window(reads[i], windows[j])
            ==> exists|k: int|
            0 <= k < pairs.len() && (#[trigger] pairs[k]).read_index == i && pairs[k].window_index == j
    &&& forall|k: int, l: int|
        0 <= k < l < pairs.len() ==> !((#[trigger] pairs[k]).read_index == (#[trigger] pairs[l]).read_index
            && pairs[k].window_index == pairs[l].window_index)
}

/// The pair of read `i` and window `j`.
pub open spec fn pair_at(reads: Seq<IntervalView>, windows: Seq<IntervalView>, i: int, j: int) -> OverlapPair {
    OverlapPair {
        read_index: i as usize,
        window_index: j as usize,
        read: span_of(reads[i]),
        window: span_of(windows[j]),
    }
}

/// The pairs of read `i` with those of the first `n` windows that it hits,
/// in the order of the windows.
pub open spec fn hits_of_read(reads: Seq<IntervalView>, windows: Seq<IntervalView>, i: int, n: nat) -> Seq<
    OverlapPair,
>
    decreases n,
{
    if n == 0 {
        Seq::empty()
    } else {
        let rest = hits_of_read(reads, windows, i, (n - 1) as nat);
        if read_hits_window(reads[i], windows[n - 1]) {
            rest.push(pair_at(reads, windows, i, n - 1))
        } else {
            rest
        }
    }
}

/// The pairs of the first `m` reads with the windows they hit, read by read
/// and, for each read, in the order of the windows.
pub open spec fn hits_in_order(reads: Seq<IntervalView>, windows: Seq<IntervalView>, m: nat) -> Seq<OverlapPair>
    decreases m,
{
    if m == 0 {
        Seq::empty()
    } else {
        hits_in_order(reads, windows, (m - 1) as nat) + hits_of_read(reads, windows, m - 1, windows.len())
    }
}

proof fn lemma_hits_of_read(reads: Seq<IntervalView>, windows: Seq<IntervalView>, i: int, n: nat)
    requires
        0 <= i < reads.len() <= usize::MAX,
        n <= windows.len() <= usize::MAX,
    ensures
        forall|k: int|
            0 <= k < hits_of_read(reads, windows, i, n).len() ==> {
                let pair = #[trigger] hits_of_read(reads, windows, i, n)[k];
                pair.read_index == i && pair.window_index < n && is_pair_of(pair, reads, windows)
            },
        forall|j: int|
            0 <= j < n && read_hits_window(reads[i], #[trigger] windows[j]) ==> exists|k: int|
                0 <= k < hits_of_read(reads, windows, i, n).len() && (#[trigger] hits_of_read(
                    reads,
                    windows,
                    i,
                    n,
                )[k]).window_index == j,
        forall|k: int, l: int|
            0 <= k < l < hits_of_read(reads, windows, i, n).len() ==> (#[trigger] hits_of_read(
                reads,
                windows,
                i,
                n,
            )[k]).window_index != (#[trigger] hits_of_read(reads, windows, i, n)[l]).window_index,
    decreases n,
{
    if n > 0 {
        lemma_hits_of_read(reads, windows, i, (n - 1) as nat);
        let rest = hits_of_read(reads, windows, i, (n - 1) as nat);
        let cur = hits_of_read(reads, windows, i, n);
        assert forall|j: int| 0 <= j < n && read_hits_window(reads[i], #[trigger] windows[j]) implies exists|k: int|
            0 <= k < cur.len() && (#[trigger] cur[k]).window_index == j by {
            if j < n - 1 {
                let k = choose|k: int| 0 <= k < rest.len() && (#[trigger] rest[k]).window_index == j;
                assert(cur[k] == rest[k]);
            } else {
                assert(cur[rest.len() as int].window_index == j);
            }
        }
        assert forall|k: int, l: int| 0 <= k < l < cur.len() implies (#[trigger] cur[k]).window_index != (
        #[trigger] cur[l]).window_index by {
            if l < rest.len() {
                assert(cur[k] == rest[k] && cur[l] == rest[l]);
            } else {
                assert(cur[k] == rest[k]);
            }
        }
        assert forall|k: int| 0 <= k < cur.len() implies {
            let pair = #[trigger] cur[k];
            pair.read_index == i && pair.window_index < n && is_pair_of(pair, reads, windows)
        } by {
            if k < rest.len() {
                assert(cur[k] == rest[k]);
            }
        }
    }
}

proof fn lemma_hits_in_order(reads: Seq<IntervalView>, windows: Seq<IntervalView>, m: nat)
    requires
        m <= reads.len() <= usize::MAX,
        windows.len() <= usize::MAX,
    ensures
        forall|k: int|
            0 <= k < hits_in_order(reads, windows, m).len() ==> {
                let pair = #[trigger] hits_in_order(reads, windows, m)[k];
                pair.read_index < m && is_pair_of(pair, reads, windows)
            },
        forall|i: int, j: int|
            0 <= i < m && 0 <= j < windows.len() && #[trigger] read_hits_window(reads[i], windows[j]) ==> exists|
                k: int,
            |
                0 <= k < hits_in_order(reads, windows, m).len() && (#[trigger] hits_in_order(
                    reads,
                    windows,
                    m,
                )[k]).read_index == i && hits_in_order(reads, windows, m)[k].window_index == j,
        forall|k: int, l: int|
            0 <= k < l < hits_in_order(reads, windows, m).len() ==> !((#[trigger] hits_in_order(
                reads,
                windows,
                m,
            )[k]).read_index == (#[trigger] hits_in_order(reads, windows, m)[l]).read_index && hits_in_order(
                reads,
                windows,
                m,
            )[k].window_index == hits_in_order(reads, windows, m)[l].window_index),
    decreases m,
{
    if m > 0 {
        lemma_hits_in_order(reads, windows, (m - 1) as nat);
        lemma_hits_of_read(reads, windows, m - 1, windows.len());
        let rest = hits_in_order(reads, windows, (m - 1) as nat);
        let last = hits_of_read(reads, windows, m - 1, windows.len());
        let cur = hits_in_order(reads, windows, m);
        assert(cur == rest + last);
        assert forall|k: int| 0 <= k < cur.len() implies {
            let pair = #[trigger] cur[k];
            pair.read_index < m && is_pair_of(pair, reads, windows)
        } by {
            if k < rest.len() {
                assert(cur[k] == rest[k]);
            } else {
                assert(cur[k] == last[k - rest.len()]);
            }
        }
        assert forall|i: int, j: int|
            0 <= i < m && 0 <= j < windows.len() && #[trigger] read_hits_window(reads[i], windows[j]) implies exists|
            k: int,
        | 0 <= k < cur.len() && (#[trigger] cur[k]).read_index == i && cur[k].window_index == j by {
            if i < m - 1 {
                let k = choose|k: int|
                    0 <= k < rest.len() && (#[trigger] rest[k]).read_index == i && rest[k].window_index == j;
                assert(cur[k] == rest[k]);
            } else {
                let k = choose|k: int| 0 <= k < last.len() && (#[trigger] last[k]).window_index == j;
                assert(cur[rest.len() + k] == last[k]);
            }
        }
        assert forall|k: int, l: int| 0 <= k < l < cur.len() implies !((#[trigger] cur[k]).read_index == (
        #[trigger] cur[l]).read_index && cur[k].window_index == cur[l].window_index) by {
            if l < rest.len() {
                assert(cur[k] == rest[k] && cur[l] == rest[l]);
            } else if k < rest.len() {
                assert(cur[k] == rest[k]);
                assert(cur[l] == last[l - rest.len()]);
            } else {
                assert(cur[k] == last[k - rest.len()]);
                assert(cur[l] == last[l - rest.len()]);
            }
        }
    }
}

/// Every list of reads and every list of windows have an intersection: the
/// hits taken read by read and window by window.
pub proof fn lemma_hits_in_order_is_an_intersection(reads: Seq<IntervalView>, windows: Seq<IntervalView>)
    requires
        reads.len() <= usize::MAX,
        windows.len() <= usize::MAX,
    ensures
        is_intersection(hits_in_order(reads, windows, reads.len()), reads, windows),
{
    lemma_hits_in_order(reads, windows, reads.len());
}

/// The windows of one chromosome, held in a `rust_lapper::Lapper` for range
/// queries. Each stored interval carries the position of its window in the
/// list the index was built from.
#[verifier::external_body]
pub struct ChromosomeLapper {
    inner: rust_lapper::Lapper<u64, usize>,
}

/// The intervals that a lapper holds, each as `(start, stop, value)`.
pub uninterp spec fn lapper_items(lapper: ChromosomeLapper) -> Multiset<(u64, u64, usize)>;

/// Whether the stored interval `item` overlaps the query range
/// `[start, stop)` as the lapper sees it.
pub open spec fn overlaps_query(item: (u64, u64, usize), start: u64, stop: u64) -> bool {
    item.0 < stop && item.1 > start
}

/// `rust_lapper::Lapper::new`: the lapper holds exactly the intervals it was
/// given, however it orders them.
#[verifier::external_body]
fn lapper_new(items: &Vec<(u64, u64, usize)>) -> (lapper: ChromosomeLapper)
    ensures
        lapper_items(lapper) == items@.to_multiset(),
{
    ChromosomeLapper {
        inner: rust_lapper::Lapper::new(
            items.iter().map(|&(start, stop, val)| rust_lapper::Interval { start, stop, val }).collect(),
        ),
    }
}

/// `rust_lapper::Lapper::find`: the stored intervals with
/// `start < query stop` and `stop > query start`, each as often as it is
/// stored, in the lapper's own order.
#[verifier::external_body]
fn lapper_find(lapper: &ChromosomeLapper, start: u64, stop: u64) -> (hits: Vec<(u64, u64, usize)>)
    ensures
        hits@.to_multiset() == lapper_items(*lapper).filter(
            |item: (u64, u64, usize)| overlaps_query(item, start, stop),
        ),
{
    lapper.inner.find(start, stop).map(|iv| (iv.start, iv.stop, iv.val)).collect()
}

/// How window `j` is stored: its coordinates and its position.
spec fn item_of(windows: Seq<IntervalView>, j: int) -> (u64, u64, usize) {
    (windows[j].start, windows[j].end, j as usize)
}

/// The stored forms of those of the first `n` windows that lie on `name`.
spec fn group_items(windows: Seq<IntervalView>, name: Seq<char>, n: nat) -> Seq<(u64, u64, usize)>
    decreases n,
{
    if n == 0 {
        Seq::empty()
    } else {
        let rest = group_items(windows, name, (n - 1) as nat);
        if windows[n - 1].chrom == name {
            rest.push(item_of(windows, n - 1))
        } else {
            rest
        }
    }
}

proof fn lemma_group_items(windows: Seq<IntervalView>, name: Seq<char>, n: nat)
    requires
        n <= windows.len() <= usize::MAX,
    ensures
        group_items(windows, name, n).no_duplicates(),
        forall|v: (u64, u64, usize)| #[trigger]
            group_items(windows, name, n).contains(v) <==> (v.2 < n && windows[v.2 as int].chrom == name && v
                == item_of(windows, v.2 as int)),
    decreases n,
{
    if n > 0 {
        lemma_group_items(windows, name, (n - 1) as nat);
        let rest = group_items(windows, name, (n - 1) as nat);
        let cur = group_items(windows, name, n);
        if windows[n - 1].chrom == name {
            let item = item_of(windows, n - 1);
            assert(cur == rest.push(item));
            assert forall|v: (u64, u64, usize)| #[trigger]
                cur.contains(v) <==> (v.2 < n && windows[v.2 as int].chrom == name && v == item_of(
                    windows,
                    v.2 as int,
                )) by {
                if cur.contains(v) {
                    let k = choose|k: int| 0 <= k < cur.len() && cur[k] == v;
                    if k < rest.len() {
                        assert(rest[k] == v);
                        assert(rest.contains(v));
                    }
                }
                if v.2 < n && windows[v.2 as int].chrom == name && v == item_of(windows, v.2 as int) {
                    if v.2 == n - 1 {
                        assert(cur[rest.len() as int] == v);
                    } else {
                        assert(rest.contains(v));
                        let k = choose|k: int| 0 <= k < rest.len() && rest[k] == v;
                        assert(cur[k] == v);
                    }
                }
            }
            assert forall|i: int, j: int| 0 <= i < cur.len() && 0 <= j < cur.len() && i != j implies cur[i]
                != cur[j] by {
                if i < rest.len() {
                    assert(rest.contains(rest[i]));
                }
                if j < rest.len() {
                    assert(rest.contains(rest[j]));
                }
            }
        }
    }
}

proof fn lemma_group_items_absent(windows: Seq<IntervalView>, name: Seq<char>, n: nat)
    requires
        n <= windows.len(),
        forall|i: int| 0 <= i < n ==> (#[trigger] windows[i]).chrom != name,
    ensures
        group_items(windows, name, n) == Seq::<(u64, u64, usize)>::empty(),
    decreases n,
{
    if n > 0 {
        lemma_group_items_absent(windows, name, (n - 1) as nat);
    }
}

/// Where `name` stands in `names`, if it does.
fn position(names: &Vec<String>, name: &String) -> (found: Option<usize>)
    ensures
        match found {
            Some(g) => g < names.len() && names[g as int]@ == name@,
            None => forall|g: int| 0 <= g < names.len() ==> (#[trigger] names[g])@ != name@,
        },
{
    let mut g: usize = 0;
    while g < names.len()
        invariant
            g <= names.len(),
            forall|h: int| 0 <= h < g ==> (#[trigger] names[h])@ != name@,
        decreases names.len() - g,
    {
        if names[g] == *name {
            return Some(g);
        }
        g += 1;
    }
    None
}

/// A list of windows, grouped by chromosome for range queries. The groups are
/// built once, when the index is, and serve every read file after that.
pub struct WindowIndex {
    windows: Vec<ExtendedWindow>,
    names: Vec<String>,
    lappers: Vec<ChromosomeLapper>,
}

impl View for WindowIndex {
    type V = Seq<IntervalView>;

    /// The windows the index was built from, in their order.
    closed spec fn view(&self) -> Seq<IntervalView> {
        window_views(self.windows@)
    }
}

impl WindowIndex {
    #[verifier::type_invariant]
    spec fn well_formed(&self) -> bool {
        &&& self.names.len() == self.lappers.len()
        &&& forall|a: int, b: int|
            0 <= a < b < self.names.len() ==> (#[trigger] self.names[a])@ != (#[trigger] self.names[b])@
        &&& forall|g: int|
            0 <= g < self.names.len() ==> lapper_items(#[trigger] self.lappers[g]) == group_items(
                self@,
                self.names[g]@,
                self@.len(),
            ).to_multiset()
        &&& forall|j: int|
            0 <= j < self@.len() ==> exists|g: int|
                0 <= g < self.names.len() && (#[trigger] self.names[g])@ == (#[trigger] self@[j]).chrom
    }

    /// Groups the windows by chromosome and builds one lapper per chromosome.
    pub fn build(windows: Vec<ExtendedWindow>) -> (index: WindowIndex)
        ensures
            index@ == window_views(windows@),
    {
        let ghost all = window_views(windows@);
        let mut names: Vec<String> = Vec::new();
        let mut buckets: Vec<Vec<(u64, u64, usize)>> = Vec::new();
        let mut j: usize = 0;
        while j < windows.len()
            invariant
                j <= windows.len(),
                all == window_views(windows@),
                names.len() == buckets.len(),
                forall|a: int, b: int| 0 <= a < b < names.len() ==> (#[trigger] names[a])@ != (#[trigger] names[b])@,
                forall|g: int|
                    0 <= g < names.len() ==> (#[trigger] buckets[g])@ == group_items(all, names[g]@, j as nat),
                forall|i: int|
                    0 <= i < j ==> exists|g: int|
                        0 <= g < names.len() && (#[trigger] names[g])@ == (#[trigger] all[i]).chrom,
            decreases windows.len() - j,
        {
            let window = &windows[j];
            let item = (window.start(), window.end(), j);
            assert(all[j as int] == window@);
            assert(item == item_of(all, j as int));
            let ghost old_names = names@;
            let ghost old_buckets = buckets@;
            match position(&names, window.chrom()) {
                Some(g) => {
                    buckets[g].push(item);
                    assert forall|h: int| 0 <= h < names.len() implies (#[trigger] buckets[h])@ == group_items(
                        all,
                        names[h]@,
                        (j + 1) as nat,
                    ) by {
                        if h != g {
                            assert(buckets[h] == old_buckets[h]);
                        }
                    }
                },
                None => {
                    proof {
                        assert forall|i: int| 0 <= i < j implies (#[trigger] all[i]).chrom != window@.chrom by {
                            let g = choose|g: int| 0 <= g < names.len() && (#[trigger] names[g])@ == all[i].chrom;
                        }
                        lemma_group_items_absent(all, window@.chrom, j as nat);
                    }
                    names.push(window.chrom().clone());
                    let mut bucket: Vec<(u64, u64, usize)> = Vec::new();
                    bucket.push(item);
                    buckets.push(bucket);
                    assert forall|h: int| 0 <= h < names.len() implies (#[trigger] buckets[h])@ == group_items(
                        all,
                        names[h]@,
                        (j + 1) as nat,
                    ) by {
                        if h < old_names.len() {
                            assert(buckets[h] == old_buckets[h]);
                            assert(names[h] == old_names[h]);
                        } else {
                            assert(bucket@ =~= Seq::<(u64, u64, usize)>::empty().push(item));
                        }
                    }
                    assert forall|i: int| 0 <= i < j implies exists|g: int|
                        0 <= g < names.len() && (#[trigger] names[g])@ == (#[trigger] all[i]).chrom by {
                        let g = choose|g: int| 0 <= g < old_names.len() && (#[trigger] old_names[g])@ == all[i].chrom;
                        assert(names[g] == old_names[g]);
                    }
                    assert(names[old_names.len() as int]@ == all[j as int].chrom);
                },
            }
            j += 1;
        }
        let mut lappers: Vec<ChromosomeLapper> = Vec::new();
        let mut g: usize = 0;
        while g < buckets.len()
            invariant
                g <= buckets.len(),
                lappers.len() == g,
                names.len() == buckets.len(),
                forall|h: int|
                    0 <= h < g ==> lapper_items(#[trigger] lappers[h]) == group_items(
                        all,
                        names[h]@,
                        all.len(),
                    ).to_multiset(),
                forall|h: int| 0 <= h < names.len() ==> (#[trigger] buckets[h])@ == group_items(all, names[h]@, all.len()),
            decreases buckets.len() - g,
        {
            lappers.push(lapper_new(&buckets[g]));
            g += 1;
        }
        WindowIndex { windows, names, lappers }
    }

    /// How many windows the index holds.
    pub fn len(&self) -> (count: usize)
        ensures
            count == self@.len(),
    {
        self.windows.len()
    }

    /// The window at position `j`.
    pub fn window(&self, j: usize) -> (window: &ExtendedWindow)
        requires
            j < self@.len(),
        ensures
            window@ == self@[j as int],
    {
        &self.windows[j]
    }

    /// The positions of the windows that `read` hits: each such window once,
    /// in no particular order. The lapper of the read's chromosome is asked
    /// for the windows that overlap the one position `[read.start,
    /// read.start + 1)`.
    pub fn overlapping(&self, read: &GenomicInterval) -> (hits: Vec<usize>)
        ensures
            hits@.no_duplicates(),
            forall|t: int| 0 <= t < hits.len() ==> hits_window_at(read@, self@, #[trigger] hits[t] as int),
            forall|j: int| #[trigger] hits_window_at(read@, self@, j) ==> hits@.contains(j as usize),
    {
        proof {
            use_type_invariant(self);
        }
        let at = read.start();
        let count = self.windows.len();
        if at == u64::MAX {
            // no window ends beyond the last coordinate
            return Vec::new();
        }
        let next = at + 1;
        match position(&self.names, read.chrom()) {
            None => {
                let hits: Vec<usize> = Vec::new();
                assert forall|j: int| #[trigger] hits_window_at(read@, self@, j) implies hits@.contains(
                    j as usize,
                ) by {
                    let g = choose|g: int| 0 <= g < self.names.len() && (#[trigger] self.names[g])@ == self@[j].chrom;
                }
                hits
            },
            Some(g) => {
                let found = lapper_find(&self.lappers[g], at, next);
                let ghost name = self.names[g as int]@;
                let ghost items = group_items(self@, name, self@.len());
                let ghost hit = |item: (u64, u64, usize)| overlaps_query(item, at, next);
                proof {
                    broadcast use vstd::multiset::group_multiset_axioms;

                    lemma_group_items(self@, name, self@.len());
                    items.lemma_multiset_has_no_duplicates();
                    items.to_multiset_ensures();
                    found@.to_multiset_ensures();
                    assert(found@.to_multiset() == items.to_multiset().filter(hit));
                    assert forall|v: (u64, u64, usize)|
                        found@.to_multiset().contains(v) implies found@.to_multiset().count(v) == 1 by {
                        assert(items.to_multiset().filter(hit).count(v) > 0);
                        assert(items.to_multiset().contains(v));
                    }
                    found@.lemma_multiset_has_no_duplicates_conv();
                    assert forall|v: (u64, u64, usize)| found@.contains(v) <==> (items.contains(v) && hit(v)) by {
                        assert(found@.contains(v) <==> found@.to_multiset().count(v) > 0);
                        assert(items.contains(v) <==> items.to_multiset().count(v) > 0);
                        assert(found@.to_multiset().count(v) == items.to_multiset().filter(hit).count(v));
                    }
                }
                let mut hits: Vec<usize> = Vec::new();
                let mut k: usize = 0;
                while k < found.len()
                    invariant
                        k <= found.len(),
                        hits.len() == k,
                        forall|t: int| 0 <= t < k ==> #[trigger] hits[t] == found[t].2,
                    decreases found.len() - k,
                {
                    hits.push(found[k].2);
                    k += 1;
                }
                proof {
                    assert forall|a: int, b: int| 0 <= a < hits.len() && 0 <= b < hits.len() && a != b implies hits[a]
                        != hits[b] by {
                        assert(found@.contains(found[a]));
                        assert(found@.contains(found[b]));
                        assert(items.contains(found[a]));
                        assert(items.contains(found[b]));
                    }
                    assert forall|t: int| 0 <= t < hits.len() implies hits_window_at(
                        read@,
                        self@,
                        #[trigger] hits[t] as int,
                    ) by {
                        assert(found@.contains(found[t]));
                        assert(items.contains(found[t]));
                        assert(hit(found[t]));
                    }
                    assert forall|j: int| #[trigger] hits_window_at(read@, self@, j) implies hits@.contains(
                        j as usize,
                    ) by {
                        let v = item_of(self@, j);
                        assert(items.contains(v));
                        assert(hit(v));
                        assert(found@.contains(v));
                        let t = choose|t: int| 0 <= t < found.len() && found[t] == v;
                        assert(hits[t] == j as usize);
                    }
                }
                hits
            },
        }
    }
}

/// Pairs every read with every window of the index that it hits. Reads on a
/// chromosome that has no window, and windows on a chromosome that has no
/// read, give no pair.
pub fn intersect_reads(index: &WindowIndex, reads: &Vec<GenomicInterval>) -> (pairs: Vec<OverlapPair>)
    ensures
        is_intersection(pairs@, interval_views(reads@), index@),
{
    let ghost all = interval_views(reads@);
    let mut pairs: Vec<OverlapPair> = Vec::new();
    let total = index.len();
    let mut i: usize = 0;
    while i < reads.len()
        invariant
            i <= reads.len(),
            total == index@.len(),
            all == interval_views(reads@),
            forall|k: int| 0 <= k < pairs.len() ==> is_pair_of(#[trigger] pairs[k], all, index@) && pairs[k].read_index < i,
            forall|a: int, j: int|
                0 <= a < i && 0 <= j < index@.len() && #[trigger] read_hits_window(all[a], index@[j]) ==> exists|k: int|
                    0 <= k < pairs.len() && (#[trigger] pairs[k]).read_index == a && pairs[k].window_index == j,
            forall|k: int, l: int|
                0 <= k < l < pairs.len() ==> !((#[trigger] pairs[k]).read_index == (#[trigger] pairs[l]).read_index
                    && pairs[k].window_index == pairs[l].window_index),
        decreases reads.len() - i,
    {
        let read = &reads[i];
        assert(all[i as int] == read@);
        let read_span = Span { start: read.start(), end: read.end(), strand: read.strand() };
        let hits = index.overlapping(read);
        let ghost before = pairs@;
        let mut t: usize = 0;
        while t < hits.len()
            invariant
                t <= hits.len(),
                i < reads.len(),
                all == interval_views(reads@),
                all[i as int] == read@,
                read_span == span_of(read@),
                hits@.no_duplicates(),
                forall|u: int| 0 <= u < hits.len() ==> hits_window_at(read@, index@, #[trigger] hits[u] as int),
                pairs.len() == before.len() + t,
                forall|k: int| 0 <= k < before.len() ==> #[trigger] pairs[k] == before[k],
                forall|k: int|
                    0 <= k < before.len() ==> is_pair_of(#[trigger] before[k], all, index@) && before[k].read_index
                        < i,
                forall|u: int|
                    0 <= u < t ==> is_pair_of(#[trigger] pairs[before.len() + u], all, index@) && pairs[before.len()
                        + u].read_index == i && pairs[before.len() + u].window_index == hits[u],
            decreases hits.len() - t,
        {
            let j = hits[t];
            let window = index.window(j);
            pairs.push(
                OverlapPair {
                    read_index: i,
                    window_index: j,
                    read: read_span,
                    window: Span { start: window.start(), end: window.end(), strand: window.strand() },
                },
            );
            t += 1;
        }
        proof {
            assert forall|k: int| 0 <= k < pairs.len() implies is_pair_of(#[trigger] pairs[k], all, index@)
                && pairs[k].read_index < i + 1 by {
                if k >= before.len() {
                    assert(pairs[k] == pairs[before.len() + (k - before.len())]);
                }
            }
            assert forall|a: int, j: int|
                0 <= a < i + 1 && 0 <= j < index@.len() && #[trigger] read_hits_window(all[a], index@[j]) implies exists|
                k: int,
            | 0 <= k < pairs.len() && (#[trigger] pairs[k]).read_index == a && pairs[k].window_index == j by {
                if a < i {
                    let k = choose|k: int|
                        0 <= k < before.len() && (#[trigger] before[k]).read_index == a && before[k].window_index == j;
                    assert(pairs[k] == before[k]);
                } else {
                    assert(hits_window_at(read@, index@, j));
                    let u = choose|u: int| 0 <= u < hits.len() && hits[u] == j as usize;
                    assert(pairs[before.len() + u].window_index == j);
                }
            }
            assert forall|k: int, l: int| 0 <= k < l < pairs.len() implies !((#[trigger] pairs[k]).read_index == (
            #[trigger] pairs[l]).read_index && pairs[k].window_index == pairs[l].window_index) by {
                if l < before.len() {
                    assert(pairs[k] == before[k] && pairs[l] == before[l]);
                } else if k < before.len() {
                    assert(pairs[k] == before[k]);
                    assert(pairs[l] == pairs[before.len() + (l - before.len())]);
                } else {
                    assert(pairs[k] == pairs[before.len() + (k - before.len())]);
                    assert(pairs[l] == pairs[before.len() + (l - before.len())]);
                }
            }
        }
        i += 1;
    }
    pairs
}

} // verus!
