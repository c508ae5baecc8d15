//! A Gaussian naive-Bayes classifier for small labeled datasets with a
//! fixed number of real-valued features and three classes.
//!
//! Real values are carried as fixed-point integers: a feature value `x`
//! is stored as `round(x * SCALE)`, and probabilities and densities are
//! stored as `round(p * PROB_ONE)`. All arithmetic is integer arithmetic,
//! verified free of overflow.

use vstd::prelude::*;

pub mod classify;
pub mod parse;
pub mod gauss;
pub mod stats;

verus! {

/// Fixed-point scale for feature values: one unit is `1 / SCALE`.
pub const SCALE: u64 = 10_000;

/// Fixed-point scale for probabilities and densities: `PROB_ONE` stands
/// for the real number one.
pub const PROB_ONE: u64 = 1_000_000_000;

/// Largest admissible fixed-point feature value (seven integer digits).
pub const VAL_MAX: u64 = 100_000_000_000;

/// Largest admissible number of records in one dataset.
pub const LEN_MAX: usize = 1_000_000;

/// How a call into the library can fail.
///
/// A file that cannot be read at all is the caller's concern; the library
/// only ever reports these two conditions.
#[derive(Clone, Copy, PartialEq, Eq, Structural, Debug)]
pub enum Error {
    /// A line of a dataset could not be parsed; `line` is its 0-based index.
    Parse { line: usize },
    /// A class's statistic lists are too short for the index the scoring
    /// scheme computes, or a looked-up standard deviation is zero.
    Domain,
}

/// The three species the classifier distinguishes, 1-based in the data
/// files: 1 is setosa, 2 is versicolor, 3 is virginica.
#[derive(Clone, Copy, PartialEq, Eq, Structural, Debug)]
pub enum ClassLabel {
    Setosa,
    Versicolor,
    Virginica,
}

impl ClassLabel {
    /// The 1-based class number used in the data files.
    pub open spec fn spec_number(self) -> int {
        match self {
            ClassLabel::Setosa => 1,
            ClassLabel::Versicolor => 2,
            ClassLabel::Virginica => 3,
        }
    }

    /// The 1-based class number used in the data files.
    pub fn number(self) -> (n: usize)
        ensures
            n == self.spec_number(),
            1 <= n <= 3,
    {
        match self {
            ClassLabel::Setosa => 1,
            ClassLabel::Versicolor => 2,
            ClassLabel::Virginica => 3,
        }
    }

    /// The label whose 1-based class number is `n`, if there is one.
    pub fn from_number(n: usize) -> (r: Option<ClassLabel>)
        ensures
            1 <= n <= 3 ==> r == Some(spec_label_of(n as int)),
            !(1 <= n <= 3) ==> r is None,
    {
        match n {
            1 => Some(ClassLabel::Setosa),
            2 => Some(ClassLabel::Versicolor),
            3 => Some(ClassLabel::Virginica),
            _ => None,
        }
    }
}

/// The label with 1-based class number `n` (meaningful for `1 <= n <= 3`).
pub open spec fn spec_label_of(n: int) -> ClassLabel {
    if n == 1 {
        ClassLabel::Setosa
    } else if n == 2 {
        ClassLabel::Versicolor
    } else {
        ClassLabel::Virginica
    }
}

/// Human-readable name of class number `n`.
///
/// Class numbers outside `1..=3` have no name; they are excluded here,
/// where the original data format promises they do not occur.
pub fn class_name(n: usize) -> (r: &'static str)
    requires
        1 <= n <= 3,
    ensures
        n == 1 ==> r@ == "setosa"@,
        n == 2 ==> r@ == "versicolor"@,
        n == 3 ==> r@ == "virginica"@,
{
    match n {
        1 => "setosa",
        2 => "versicolor",
        _ => "virginica",
    }
}

/// One labeled sample: a fixed-point feature vector and its class.
#[derive(Debug)]
pub struct Record {
    pub features: Vec<u64>,
    pub label: ClassLabel,
}

} // verus!
