use vstd::prelude::*;
use vstd::arithmetic::div_mod::{lemma_fundamental_div_mod, lemma_mod_pos_bound};
use crate::error::ProfileError;

verus! {

/// The sum of `values[low..high]`.
pub open spec fn chunk_sum(values: Seq<u64>, low: int, high: int) -> nat
    decreases high - low,
{
    if high <= low {
        0
    } else {
        chunk_sum(values, low, high - 1) + values[high - 1] as nat
    }
}

/// The number of bins that `len` positions fall into: `len / bin_size`,
/// rounded up.
pub open spec fn bin_count(len: nat, bin_size: nat) -> nat {
    if len % bin_size == 0 {
        len / bin_size
    } else {
        len / bin_size + 1
    }
}

/// The sum of the positions of bin `b`. Bins hold `bin_size` consecutive
/// positions each; the last one holds what is left.
pub open spec fn bin_sum(coverage: Seq<u64>, bin_size: nat, b: int) -> nat {
    let low = b * bin_size;
    let high = if low + bin_size <= coverage.len() {
        low + bin_size
    } else {
        coverage.len() as int
    };
    chunk_sum(coverage, low, high)
}

/// What a normalized profile is, as plain values. Bin `b` stands for the
/// rational number `numerator(b) / denominator()`.
pub struct ProfileView {
    pub sums: Seq<nat>,
    pub bin_size: nat,
    pub region_count: nat,
    pub read_count: nat,
}

impl ProfileView {
    /// The sum of bin `b`, scaled to a library of a million reads.
    pub open spec fn numerator(self, b: int) -> nat {
        self.sums[b] * 1_000_000
    }

    /// What every bin is divided by: the nominal bin size, also for a last
    /// bin that holds fewer positions, the number of regions, and the number
    /// of reads. It is zero only for a read file without reads; the bins then
    /// stand for no number.
    pub open spec fn denominator(self) -> nat {
        self.bin_size * self.region_count * self.read_count
    }
}

/// What `normalize` returns, over plain values.
pub open spec fn normalized(coverage: Seq<u64>, read_count: nat, region_count: nat, bin_size: nat)
    -> Result<ProfileView, ProfileError> {
    if region_count == 0 {
        Err(ProfileError::DivisionByZero)
    } else {
        Ok(
            ProfileView {
                sums: Seq::new(bin_count(coverage.len(), bin_size), |b: int| bin_sum(coverage, bin_size, b)),
                bin_size,
                region_count,
                read_count,
            },
        )
    }
}

/// A coverage vector, binned and scaled.
#[derive(Debug)]
pub struct NormalizedProfile {
    sums: Vec<u128>,
    bin_size: usize,
    region_count: usize,
    read_count: usize,
}

impl View for NormalizedProfile {
    type V = ProfileView;

    closed spec fn view(&self) -> ProfileView {
        ProfileView {
            sums: Seq::new(self.sums@.len(), |b: int| self.sums@[b] as nat),
            bin_size: self.bin_size as nat,
            region_count: self.region_count as nat,
            read_count: self.read_count as nat,
        }
    }
}

impl NormalizedProfile {
    /// The number of bins.
    pub fn len(&self) -> (bins: usize)
        ensures
            bins == self@.sums.len(),
    {
        self.sums.len()
    }

    /// The sum of the coverage over the positions of bin `b`.
    pub fn bin_sum(&self, b: usize) -> (sum: u128)
        requires
            b < self@.sums.len(),
        ensures
            sum == self@.sums[b as int],
    {
        self.sums[b]
    }

    /// The number of positions that a full bin holds.
    pub fn bin_size(&self) -> (size: usize)
        ensures
            size == self@.bin_size,
    {
        self.bin_size
    }

    /// The number of regions that every position was divided by.
    pub fn region_count(&self) -> (count: usize)
        ensures
            count == self@.region_count,
    {
        self.region_count
    }

    /// The number of reads that the profile is scaled by.
    pub fn read_count(&self) -> (count: usize)
        ensures
            count == self@.read_count,
    {
        self.read_count
    }
}

proof fn lemma_chunk_sum_bound(values: Seq<u64>, low: int, high: int)
    requires
        0 <= low <= high <= values.len(),
    ensures
        chunk_sum(values, low, high) <= (high - low) * u64::MAX,
    decreases high - low,
{
    if high > low {
        lemma_chunk_sum_bound(values, low, high - 1);
        assert((high - 1 - low) * u64::MAX + u64::MAX == (high - low) * u64::MAX) by (nonlinear_arith);
    }
}

/// Bins a coverage vector and scales it by the sizes of the read file and of
/// the region file. Each position is divided by `region_count`; each bin is
/// the sum of its positions divided by `bin_size` and multiplied by
/// `1_000_000 / read_count`. The profile holds the sum of each bin and the
/// three divisors, so that every value is an exact fraction.
///
/// Fails with `DivisionByZero` when `region_count` is zero.
pub fn normalize(input: &[u64], read_count: usize, region_count: usize, bin_size: usize) -> (profile: Result<
    NormalizedProfile,
    ProfileError,
>)
    requires
        bin_size > 0,
    ensures
        match profile {
            Ok(made) => normalized(input@, read_count as nat, region_count as nat, bin_size as nat) == Ok::<
                ProfileView,
                ProfileError,
            >(made@),
            Err(e) => normalized(input@, read_count as nat, region_count as nat, bin_size as nat) == Err::<
                ProfileView,
                ProfileError,
            >(e),
        },
{
    if region_count == 0 {
        return Err(ProfileError::DivisionByZero);
    }
    let len = input.len();
    proof {
        lemma_fundamental_div_mod(len as int, bin_size as int);
        lemma_mod_pos_bound(len as int, bin_size as int);
        assert((len / bin_size) * bin_size <= len && (len % bin_size != 0 ==> len / bin_size < len))
            by (nonlinear_arith)
            requires
                len == bin_size * (len / bin_size) + (len % bin_size),
                0 <= len % bin_size,
                0 <= len / bin_size,
                bin_size > 0,
        ;
    }
    let bins: usize = if len % bin_size == 0 {
        len / bin_size
    } else {
        len / bin_size + 1
    };
    let mut sums: Vec<u128> = Vec::new();
    let mut b: usize = 0;
    while b < bins
        invariant
            b <= bins,
            bin_size > 0,
            len == input.len(),
            bins == bin_count(len as nat, bin_size as nat),
            (len / bin_size) * bin_size <= len,
            sums.len() == b,
            forall|c: int| 0 <= c < b ==> #[trigger] sums[c] == bin_sum(input@, bin_size as nat, c),
        decreases bins - b,
    {
        assert(b * bin_size <= len) by (nonlinear_arith)
            requires
                b <= len / bin_size,
                (len / bin_size) * bin_size <= len,
                bin_size > 0,
        ;
        let low: usize = b * bin_size;
        let high: usize = if len - low >= bin_size {
            low + bin_size
        } else {
            len
        };
        let mut sum: u128 = 0;
        let mut at: usize = low;
        while at < high
            invariant
                low <= at <= high <= len,
                len == input.len(),
                sum == chunk_sum(input@, low as int, at as int),
            decreases high - at,
        {
            proof {
                lemma_chunk_sum_bound(input@, low as int, at as int);
                assert((at - low) * u64::MAX + u64::MAX <= u128::MAX) by (nonlinear_arith)
                    requires
                        0 <= at - low <= u64::MAX,
                ;
            }
            sum = sum + input[at] as u128;
            at += 1;
        }
        sums.push(sum);
        b += 1;
    }
    let made = NormalizedProfile { sums, bin_size, region_count, read_count };
    assert(made@.sums =~= Seq::new(
        bin_count(input@.len(), bin_size as nat),
        |b: int| bin_sum(input@, bin_size as nat, b),
    ));
    Ok(made)
}

/// Without regions there is no profile, whatever the coverage, the number of
/// reads and the bin size are.
pub proof fn lemma_no_regions_no_profile(coverage: Seq<u64>, read_count: nat, bin_size: nat)
    ensures
        normalized(coverage, read_count, 0, bin_size) == Err::<ProfileView, ProfileError>(
            ProfileError::DivisionByZero,
        ),
{
}

proof fn lemma_chunk_sum_scales(values: Seq<u64>, scaled: Seq<u64>, k: nat, low: int, high: int)
    requires
        scaled.len() == values.len(),
        forall|i: int| 0 <= i < values.len() ==> #[trigger] scaled[i] == k * values[i],
        0 <= low,
        high <= values.len(),
    ensures
        chunk_sum(scaled, low, high) == k * chunk_sum(values, low, high),
    decreases high - low,
{
    if high > low {
        lemma_chunk_sum_scales(values, scaled, k, low, high - 1);
        let rest = chunk_sum(values, low, high - 1);
        let last = values[high - 1] as nat;
        assert(scaled[high - 1] == k * values[high - 1]);
        assert(chunk_sum(scaled, low, high) == k * rest + k * last);
        assert(k * (rest + last) == k * rest + k * last) by (nonlinear_arith);
    } else {
        assert(k * 0 == 0);
    }
}

/// Normalizing is linear in the coverage: when every position of a coverage
/// vector is multiplied by `k`, every bin of its profile is `k` times what it
/// was, over the same denominator, and a vector that is refused stays
/// refused.
pub proof fn lemma_normalize_is_linear(
    coverage: Seq<u64>,
    scaled: Seq<u64>,
    k: nat,
    read_count: nat,
    region_count: nat,
    bin_size: nat,
)
    requires
        bin_size > 0,
        scaled.len() == coverage.len(),
        forall|i: int| 0 <= i < coverage.len() ==> #[trigger] scaled[i] == k * coverage[i],
    ensures
        match normalized(coverage, read_count, region_count, bin_size) {
            Ok(profile) => {
                &&& normalized(scaled, read_count, region_count, bin_size) is Ok
                &&& normalized(scaled, read_count, region_count, bin_size)->Ok_0.sums.len()
                    == profile.sums.len()
                &&& normalized(scaled, read_count, region_count, bin_size)->Ok_0.denominator()
                    == profile.denominator()
                &&& forall|b: int|
                    0 <= b < profile.sums.len() ==> #[trigger] normalized(
                        scaled,
                        read_count,
                        region_count,
                        bin_size,
                    )->Ok_0.numerator(b) == k * profile.numerator(b)
            },
            Err(e) => normalized(scaled, read_count, region_count, bin_size) == Err::<ProfileView, ProfileError>(e),
        },
{
    if region_count != 0 {
        let profile = normalized(coverage, read_count, region_count, bin_size)->Ok_0;
        let other = normalized(scaled, read_count, region_count, bin_size)->Ok_0;
        assert forall|b: int| 0 <= b < profile.sums.len() implies #[trigger] other.numerator(b) == k
            * profile.numerator(b) by {
            let low = b * bin_size;
            let high = if low + bin_size <= coverage.len() {
                low + bin_size
            } else {
                coverage.len() as int
            };
            assert(0 <= low) by (nonlinear_arith)
                requires
                    0 <= b,
                    low == b * bin_size,
            ;
            lemma_chunk_sum_scales(coverage, scaled, k, low, high);
            assert(other.sums[b] == k * profile.sums[b]);
            assert((k * profile.sums[b]) * 1_000_000 == k * (profile.sums[b] * 1_000_000)) by (nonlinear_arith);
        }
    }
}

} // verus!
