use vstd::prelude::*;

verus! {

/// Why a profile could not be computed. Every error ends the run: nothing is
/// retried and no partial output is produced.
#[derive(Clone, Copy, Debug, PartialEq, Eq, Structural)]
pub enum ProfileError {
    /// A record is malformed: too few columns, a coordinate that is not an
    /// unsigned integer, a start beyond its end, or a strand field that is
    /// not a single character.
    ParseError,
    /// The reference point is none of `center`, `start`, `end`.
    InvalidReferencePoint,
    /// The window would begin before coordinate zero.
    ArithmeticUnderflow,
    /// The window would end beyond the largest coordinate, or is too long to
    /// be held in memory.
    CoordinateOverflow,
    /// The region file holds no intervals.
    DivisionByZero,
    /// Relative mode was asked for with a number of read files other than two.
    UnsupportedReadCount,
}

impl ProfileError {
    /// A short description for the person who started the run.
    pub fn message(&self) -> (text: String)
        ensures
            text@ == match *self {
                ProfileError::ParseError => "malformed interval record"@,
                ProfileError::InvalidReferencePoint => "reference point must be center, start or end"@,
                ProfileError::ArithmeticUnderflow => "window would start before coordinate zero"@,
                ProfileError::CoordinateOverflow => "window does not fit the coordinate range"@,
                ProfileError::DivisionByZero => "region file holds no intervals"@,
                ProfileError::UnsupportedReadCount => "only 2 reads are supported in relative mode"@,
            },
    {
        match self {
            ProfileError::ParseError => "malformed interval record".to_owned(),
            ProfileError::InvalidReferencePoint => "reference point must be center, start or end".to_owned(),
            ProfileError::ArithmeticUnderflow => "window would start before coordinate zero".to_owned(),
            ProfileError::CoordinateOverflow => "window does not fit the coordinate range".to_owned(),
            ProfileError::DivisionByZero => "region file holds no intervals".to_owned(),
            ProfileError::UnsupportedReadCount => "only 2 reads are supported in relative mode".to_owned(),
        }
    }
}

} // verus!
