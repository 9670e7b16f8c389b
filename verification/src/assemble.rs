use vstd::prelude::*;
use vstd::string::StringExecFns;
use crate::error::ProfileError;
use crate::normalize::{NormalizedProfile, ProfileView};

verus! {

/// What a series is, as plain values: a label and a profile, or a label and
/// two profiles of which the first is divided by the second.
pub struct SeriesView {
    pub label: Seq<char>,
    pub profile: ProfileView,
    pub over: Option<ProfileView>,
}

impl SeriesView {
    /// The number of values in the series. A ratio has as many as the
    /// shorter of its two profiles.
    pub open spec fn len(self) -> nat {
        match self.over {
            None => self.profile.sums.len(),
            Some(under) => if self.profile.sums.len() <= under.sums.len() {
                self.profile.sums.len()
            } else {
                under.sums.len()
            },
        }
    }

    /// Value `i` of the series is `numerator(i) / denominator(i)`. For a
    /// ratio this is bin `i` of the first profile divided by bin `i` of the
    /// second, as one fraction.
    pub open spec fn numerator(self, i: int) -> nat {
        match self.over {
            None => self.profile.numerator(i),
            Some(under) => self.profile.numerator(i) * under.denominator(),
        }
    }

    /// See `numerator`. Where the denominator is zero the value stands for no
    /// number.
    pub open spec fn denominator(self, i: int) -> nat {
        match self.over {
            None => self.profile.denominator(),
            Some(under) => under.numerator(i) * self.profile.denominator(),
        }
    }
}

/// A labelled sequence of values, ready to be drawn.
#[derive(Debug)]
pub struct Series {
    label: String,
    profile: NormalizedProfile,
    over: Option<NormalizedProfile>,
}

impl View for Series {
    type V = SeriesView;

    closed spec fn view(&self) -> SeriesView {
        SeriesView {
            label: self.label@,
            profile: self.profile@,
            over: match self.over {
                None => None,
                Some(under) => Some(under@),
            },
        }
    }
}

impl Series {
    /// The name the series is drawn under.
    pub fn label(&self) -> (label: &String)
        ensures
            label@ == self@.label,
    {
        &self.label
    }

    /// The profile of the series; for a ratio, the profile that is divided.
    pub fn profile(&self) -> (profile: &NormalizedProfile)
        ensures
            profile@ == self@.profile,
    {
        &self.profile
    }

    /// For a ratio, the profile that the first is divided by.
    pub fn over(&self) -> (over: Option<&NormalizedProfile>)
        ensures
            match over {
                None => self@.over is None,
                Some(under) => self@.over == Some(under@),
            },
    {
        match &self.over {
            None => None,
            Some(under) => Some(under),
        }
    }

    /// The number of values in the series.
    pub fn len(&self) -> (count: usize)
        ensures
            count == self@.len(),
    {
        match &self.over {
            None => self.profile.len(),
            Some(under) => if self.profile.len() <= under.len() {
                self.profile.len()
            } else {
                under.len()
            },
        }
    }
}

/// The profiles and labels of a list, each as plain values.
pub open spec fn labelled_views(profiles: Seq<(NormalizedProfile, String)>) -> Seq<(ProfileView, Seq<char>)> {
    Seq::new(profiles.len(), |i: int| (profiles[i].0@, profiles[i].1@))
}

/// The series of a list, each as plain values.
pub open spec fn series_views(series: Seq<Series>) -> Seq<SeriesView> {
    Seq::new(series.len(), |i: int| series[i]@)
}

/// The label of a ratio: the two labels with ` / ` between them.
pub open spec fn ratio_label(first: Seq<char>, second: Seq<char>) -> Seq<char> {
    first + " / "@ + second
}

/// Whether the number of read files suits the mode: relative mode compares
/// exactly two.
pub open spec fn read_count_suits(count: nat, relative: bool) -> bool {
    !relative || count == 2
}

/// Tests the number of read files against the mode, before any of them is
/// looked at.
pub fn check_read_count(count: usize, relative: bool) -> (checked: Result<(), ProfileError>)
    ensures
        checked == (if read_count_suits(count as nat, relative) {
            Ok::<(), ProfileError>(())
        } else {
            Err(ProfileError::UnsupportedReadCount)
        }),
{
    if relative && count != 2 {
        Err(ProfileError::UnsupportedReadCount)
    } else {
        Ok(())
    }
}

/// What `assemble` returns, over plain values.
pub open spec fn assembled(profiles: Seq<(ProfileView, Seq<char>)>, relative: bool) -> Result<
    Seq<SeriesView>,
    ProfileError,
> {
    if !read_count_suits(profiles.len(), relative) {
        Err(ProfileError::UnsupportedReadCount)
    } else if !relative {
        Ok(
            Seq::new(
                profiles.len(),
                |i: int| SeriesView { label: profiles[i].1, profile: profiles[i].0, over: None },
            ),
        )
    } else {
        Ok(
            seq![
                SeriesView {
                    label: ratio_label(profiles[0].1, profiles[1].1),
                    profile: profiles[0].0,
                    over: Some(profiles[1].0),
                },
            ],
        )
    }
}

/// In relative mode two profiles `a` and `b`, in this order, become one
/// series, labelled with their two labels joined by ` / `, whose value `i` is
/// bin `i` of `a` divided by bin `i` of `b`: the fraction
/// `(a.numerator(i) * b.denominator()) / (b.numerator(i) * a.denominator())`.
pub proof fn lemma_relative_series_is_the_ratio(profiles: Seq<(ProfileView, Seq<char>)>)
    requires
        profiles.len() == 2,
    ensures
        assembled(profiles, true) is Ok,
        assembled(profiles, true)->Ok_0.len() == 1,
        assembled(profiles, true)->Ok_0[0].label == profiles[0].1 + " / "@ + profiles[1].1,
        forall|i: int| #[trigger]
            assembled(profiles, true)->Ok_0[0].numerator(i) == profiles[0].0.numerator(i)
                * profiles[1].0.denominator(),
        forall|i: int| #[trigger]
            assembled(profiles, true)->Ok_0[0].denominator(i) == profiles[1].0.numerator(i)
                * profiles[0].0.denominator(),
{
}

/// Relative mode with any number of profiles other than two, one or three
/// among them, is refused.
pub proof fn lemma_relative_mode_needs_two_profiles(profiles: Seq<(ProfileView, Seq<char>)>)
    requires
        profiles.len() != 2,
    ensures
        assembled(profiles, true) == Err::<Seq<SeriesView>, ProfileError>(ProfileError::UnsupportedReadCount),
{
}

/// Turns the profiles of the read files, in their order, into the series to
/// draw. Without `relative` every profile becomes a series under its label,
/// in the same order. With `relative` there must be exactly two profiles;
/// they become one series, the first divided by the second bin by bin, under
/// the two labels joined by ` / `.
///
/// Fails with `UnsupportedReadCount` when `relative` is set and the number of
/// profiles is not two.
pub fn assemble(profiles: Vec<(NormalizedProfile, String)>, relative: bool) -> (series: Result<
    Vec<Series>,
    ProfileError,
>)
    ensures
        match series {
            Ok(made) => assembled(labelled_views(profiles@), relative) == Ok::<Seq<SeriesView>, ProfileError>(
                series_views(made@),
            ),
            Err(e) => assembled(labelled_views(profiles@), relative) == Err::<Seq<SeriesView>, ProfileError>(e),
        },
{
    match check_read_count(profiles.len(), relative) {
        Ok(()) => {},
        Err(e) => {
            return Err(e);
        },
    }
    let mut rest = profiles;
    let mut made: Vec<Series> = Vec::new();
    if relative {
        let (first, first_label) = rest.remove(0);
        let (second, second_label) = rest.remove(0);
        let mut label = first_label;
        label.append(" / ");
        label.append(second_label.as_str());
        made.push(Series { label, profile: first, over: Some(second) });
        assert(series_views(made@) =~= seq![
            SeriesView {
                label: ratio_label(profiles[0].1@, profiles[1].1@),
                profile: profiles[0].0@,
                over: Some(profiles[1].0@),
            },
        ]);
        return Ok(made);
    }
    let total = rest.len();
    let mut i: usize = 0;
    while i < total
        invariant
            i <= total,
            total == profiles.len(),
            made.len() == i,
            rest@ == profiles@.subrange(i as int, total as int),
            forall|k: int|
                0 <= k < i ==> (#[trigger] made[k])@ == (SeriesView {
                    label: profiles[k].1@,
                    profile: profiles[k].0@,
                    over: None,
                }),
        decreases total - i,
    {
        let (profile, label) = rest.remove(0);
        made.push(Series { label, profile, over: None });
        assert(rest@ =~= profiles@.subrange(i + 1, total as int));
        i += 1;
    }
    assert(series_views(made@) =~= assembled(labelled_views(profiles@), relative)->Ok_0);
    Ok(made)
}

} // verus!
