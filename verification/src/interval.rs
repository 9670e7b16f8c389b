use vstd::prelude::*;
use vstd::string::StringExecFns;
use crate::error::ProfileError;

verus! {

/// The strand a feature lies on. Only `Reverse` changes how coverage is laid
/// out around the reference point.
#[derive(Clone, Copy, Debug, PartialEq, Eq, Structural)]
pub enum Strand {
    Forward,
    Reverse,
    Unknown,
}

/// Which coordinate of a region anchors its window.
#[derive(Clone, Copy, Debug, PartialEq, Eq, Structural)]
pub enum ReferencePoint {
    Center,
    Start,
    End,
}

/// What a genomic interval is, as plain values: the half-open range
/// `[start, end)` on a chromosome, with a strand.
pub struct IntervalView {
    pub chrom: Seq<char>,
    pub start: u64,
    pub end: u64,
    pub strand: Strand,
}

/// An interval on a chromosome, `start` inclusive and `end` exclusive, with
/// `start <= end`. Regions and reads are both of this type.
#[derive(Debug)]
pub struct GenomicInterval {
    chrom: String,
    start: u64,
    end: u64,
    strand: Strand,
}

/// The window `[anchor - upstream, anchor + downstream)` around a region's
/// anchor, with the strand of the region it was made from.
#[derive(Debug)]
pub struct ExtendedWindow {
    chrom: String,
    start: u64,
    end: u64,
    strand: Strand,
}

impl View for GenomicInterval {
    type V = IntervalView;

    closed spec fn view(&self) -> IntervalView {
        IntervalView { chrom: self.chrom@, start: self.start, end: self.end, strand: self.strand }
    }
}

impl View for ExtendedWindow {
    type V = IntervalView;

    closed spec fn view(&self) -> IntervalView {
        IntervalView { chrom: self.chrom@, start: self.start, end: self.end, strand: self.strand }
    }
}

impl GenomicInterval {
    /// Holds of every interval that exists at run time.
    #[verifier::type_invariant]
    pub open spec fn ordered(&self) -> bool {
        self@.start <= self@.end
    }

    /// The interval `[start, end)`, or nothing when `start` lies beyond `end`.
    pub fn new(chrom: String, start: u64, end: u64, strand: Strand) -> (made: Option<GenomicInterval>)
        ensures
            made is Some <==> start <= end,
            made is Some ==> made->0@ == (IntervalView { chrom: chrom@, start, end, strand }),
    {
        if start <= end {
            Some(GenomicInterval { chrom, start, end, strand })
        } else {
            None
        }
    }

    /// The chromosome the interval lies on.
    pub fn chrom(&self) -> (name: &String)
        ensures
            name@ == self@.chrom,
    {
        &self.chrom
    }

    /// The first coordinate of the interval.
    pub fn start(&self) -> (at: u64)
        ensures
            at == self@.start,
            at <= self@.end,
    {
        proof {
            use_type_invariant(self);
        }
        self.start
    }

    /// The coordinate after the last one of the interval.
    pub fn end(&self) -> (at: u64)
        ensures
            at == self@.end,
            self@.start <= at,
    {
        proof {
            use_type_invariant(self);
        }
        self.end
    }

    /// The strand the interval lies on.
    pub fn strand(&self) -> (strand: Strand)
        ensures
            strand == self@.strand,
    {
        self.strand
    }
}

impl ExtendedWindow {
    /// Holds of every window that exists at run time.
    #[verifier::type_invariant]
    pub open spec fn ordered(&self) -> bool {
        self@.start <= self@.end
    }

    /// The chromosome the interval lies on.
    pub fn chrom(&self) -> (name: &String)
        ensures
            name@ == self@.chrom,
    {
        &self.chrom
    }

    /// The first coordinate of the interval.
    pub fn start(&self) -> (at: u64)
        ensures
            at == self@.start,
            at <= self@.end,
    {
        proof {
            use_type_invariant(self);
        }
        self.start
    }

    /// The coordinate after the last one of the interval.
    pub fn end(&self) -> (at: u64)
        ensures
            at == self@.end,
            self@.start <= at,
    {
        proof {
            use_type_invariant(self);
        }
        self.end
    }

    /// The strand the interval lies on.
    pub fn strand(&self) -> (strand: Strand)
        ensures
            strand == self@.strand,
    {
        self.strand
    }
}

/// The intervals of a list, each as plain values.
pub open spec fn interval_views(intervals: Seq<GenomicInterval>) -> Seq<IntervalView> {
    Seq::new(intervals.len(), |i: int| intervals[i]@)
}

/// The windows of a list, each as plain values.
pub open spec fn window_views(windows: Seq<ExtendedWindow>) -> Seq<IntervalView> {
    Seq::new(windows.len(), |i: int| windows[i]@)
}

/// The coordinate that a window is laid around: the region's start, its end,
/// or the point `start + floor((end - start) / 2)`.
pub open spec fn anchor_of(region: IntervalView, mode: ReferencePoint) -> int {
    match mode {
        ReferencePoint::Center => region.start + (region.end - region.start) / 2,
        ReferencePoint::Start => region.start as int,
        ReferencePoint::End => region.end as int,
    }
}

/// What `extend` returns, over plain values.
pub open spec fn extended(region: IntervalView, mode: ReferencePoint, upstream: u64, downstream: u64)
    -> Result<IntervalView, ProfileError> {
    let anchor = anchor_of(region, mode);
    if anchor < upstream {
        Err(ProfileError::ArithmeticUnderflow)
    } else if anchor + downstream > u64::MAX {
        Err(ProfileError::CoordinateOverflow)
    } else {
        Ok(
            IntervalView {
                chrom: region.chrom,
                start: (anchor - upstream) as u64,
                end: (anchor + downstream) as u64,
                strand: region.strand,
            },
        )
    }
}

/// A window is exactly `upstream + downstream` long, whichever reference
/// point it is laid around, and begins at or before its end.
pub proof fn lemma_window_length(region: IntervalView, mode: ReferencePoint, upstream: u64, downstream: u64)
    requires
        region.start <= region.end,
    ensures
        extended(region, mode, upstream, downstream) is Ok ==> extended(
            region,
            mode,
            upstream,
            downstream,
        )->Ok_0.end - extended(region, mode, upstream, downstream)->Ok_0.start == upstream + downstream,
{
}

impl ReferencePoint {
    /// Reads a reference point from its name: `center`, `start` or `end`.
    /// Any other name is refused with `InvalidReferencePoint`.
    pub fn from_name(name: &str) -> (mode: Result<ReferencePoint, ProfileError>)
        ensures
            mode == (if name@ == "center"@ {
                Ok::<ReferencePoint, ProfileError>(ReferencePoint::Center)
            } else if name@ == "start"@ {
                Ok(ReferencePoint::Start)
            } else if name@ == "end"@ {
                Ok(ReferencePoint::End)
            } else {
                Err(ProfileError::InvalidReferencePoint)
            }),
    {
        let owned = String::from_str(name);
        if owned == String::from_str("center") {
            Ok(ReferencePoint::Center)
        } else if owned == String::from_str("start") {
            Ok(ReferencePoint::Start)
        } else if owned == String::from_str("end") {
            Ok(ReferencePoint::End)
        } else {
            Err(ProfileError::InvalidReferencePoint)
        }
    }

    /// The name that `from_name` reads this reference point from.
    pub fn name(&self) -> (text: String)
        ensures
            text@ == match *self {
                ReferencePoint::Center => "center"@,
                ReferencePoint::Start => "start"@,
                ReferencePoint::End => "end"@,
            },
    {
        match self {
            ReferencePoint::Center => "center".to_owned(),
            ReferencePoint::Start => "start".to_owned(),
            ReferencePoint::End => "end".to_owned(),
        }
    }
}

/// Widens a region into the window `[anchor - upstream, anchor + downstream)`
/// around its anchor. The window keeps the region's chromosome and strand and
/// is exactly `upstream + downstream` long.
///
/// Fails with `ArithmeticUnderflow` when the anchor is smaller than
/// `upstream`, and otherwise with `CoordinateOverflow` when
/// `anchor + downstream` is not a coordinate.
pub fn extend(region: &GenomicInterval, mode: ReferencePoint, upstream: u64, downstream: u64)
    -> (window: Result<ExtendedWindow, ProfileError>)
    ensures
        match window {
            Ok(w) => extended(region@, mode, upstream, downstream) == Ok::<IntervalView, ProfileError>(w@),
            Err(e) => extended(region@, mode, upstream, downstream) == Err::<IntervalView, ProfileError>(e),
        },
        window is Ok ==> window->Ok_0@.end - window->Ok_0@.start == upstream + downstream,
{
    proof {
        use_type_invariant(region);
    }
    let anchor: u64 = match mode {
        ReferencePoint::Center => region.start + (region.end - region.start) / 2,
        ReferencePoint::Start => region.start,
        ReferencePoint::End => region.end,
    };
    if anchor < upstream {
        return Err(ProfileError::ArithmeticUnderflow);
    }
    if downstream > u64::MAX - anchor {
        return Err(ProfileError::CoordinateOverflow);
    }
    Ok(
        ExtendedWindow {
            chrom: region.chrom.clone(),
            start: anchor - upstream,
            end: anchor + downstream,
            strand: region.strand,
        },
    )
}

} // verus!
