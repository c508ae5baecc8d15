//! Fitting per-class statistics and predicting classes.
//!
//! Two statistic layouts are offered side by side.
//!
//! The *record-wise* layout (`fit`, `class_prob`, `predict`) keeps one
//! mean/stdev pair per training record of the class, each computed across
//! that record's own feature vector, and scoring reads the pairs at
//! `i + len / 5`. This layout makes the number of stored pairs depend on
//! the per-class training count, and scoring can run off the end of the
//! lists for small classes; that case is reported as `Error::Domain`.
//!
//! The *feature-wise* layout (`fit_by_feature`, `class_prob_by_feature`,
//! `predict_by_feature`) is the canonical Gaussian naive Bayes: one
//! mean/stdev pair per feature, computed across all records of the class,
//! and scoring reads pair `i` for feature `i`.

use vstd::prelude::*;
use crate::{Error, ClassLabel, Record, spec_label_of, PROB_ONE, VAL_MAX, LEN_MAX};
use crate::stats::{mean, stdev, spec_mean, spec_stdev};
use crate::gauss::{prob_of, spec_prob_of, DENSITY_MAX};

verus! {

/// Number of classes the classifier distinguishes.
pub const CLASSES: usize = 3;

/// Default number of features per record.
pub const INPUT_LEN: usize = 4;

/// Largest supported number of features per record (headroom of the
/// 128-bit score accumulator).
pub const MAX_FEATURES: usize = 5;

/// A feature vector whose entries the fixed-point arithmetic admits.
pub open spec fn row_ok(row: Seq<u64>) -> bool {
    &&& 1 <= row.len() <= MAX_FEATURES
    &&& forall|k: int| 0 <= k < row.len() ==> row[k] <= VAL_MAX
}

/// Every record's feature vector is admissible.
pub open spec fn rows_ok(data: Seq<Record>) -> bool {
    forall|i: int| 0 <= i < data.len() ==> row_ok(#[trigger] data[i].features@)
}

/// Every record is admissible and has exactly `n` features.
pub open spec fn valid_dataset(data: Seq<Record>, n: int) -> bool {
    &&& rows_ok(data)
    &&& forall|i: int| 0 <= i < data.len() ==> (#[trigger] data[i].features@).len() == n
}

/// The feature vectors of the records of class `class`, in dataset order.
pub open spec fn class_rows(data: Seq<Record>, class: int) -> Seq<Seq<u64>>
    decreases data.len(),
{
    if data.len() == 0 {
        Seq::empty()
    } else {
        let rest = class_rows(data.drop_last(), class);
        if data.last().label.spec_number() == class {
            rest.push(data.last().features@)
        } else {
            rest
        }
    }
}

/// Extending the scanned prefix by one record extends its class rows by
/// that record's features exactly when the record is of the class.
pub proof fn lemma_class_rows_step(data: Seq<Record>, i: int, class: int)
    requires
        0 <= i < data.len(),
    ensures
        data[i].label.spec_number() == class ==> class_rows(data.take(i + 1), class) == class_rows(
            data.take(i),
            class,
        ).push(data[i].features@),
        data[i].label.spec_number() != class ==> class_rows(data.take(i + 1), class) == class_rows(
            data.take(i),
            class,
        ),
{
    assert(data.take(i + 1).drop_last() =~= data.take(i));
    assert(data.take(i + 1).last() == data[i]);
    assert(data.take(i + 1).len() == i + 1);
}

pub proof fn lemma_class_rows_len(data: Seq<Record>, class: int)
    ensures
        class_rows(data, class).len() <= data.len(),
    decreases data.len(),
{
    if data.len() > 0 {
        lemma_class_rows_len(data.drop_last(), class);
    }
}

pub proof fn lemma_class_rows_ok(data: Seq<Record>, class: int)
    requires
        rows_ok(data),
    ensures
        forall|j: int|
            0 <= j < class_rows(data, class).len() ==> row_ok(#[trigger] class_rows(data, class)[j]),
    decreases data.len(),
{
    if data.len() > 0 {
        assert(rows_ok(data.drop_last())) by {
            assert(forall|i: int|
                0 <= i < data.drop_last().len() ==> data.drop_last()[i] == data[i]);
        }
        lemma_class_rows_ok(data.drop_last(), class);
        assert(data.last() == data[data.len() - 1]);
        assert(row_ok(data.last().features@));
        let rest = class_rows(data.drop_last(), class);
        let rows = class_rows(data, class);
        assert forall|j: int| 0 <= j < rows.len() implies row_ok(#[trigger] rows[j]) by {
            if data.last().label.spec_number() == class {
                assert(rows == rest.push(data.last().features@));
                if j < rest.len() {
                    assert(rows[j] == rest[j]);
                } else {
                    assert(rows[j] == data.last().features@);
                }
            } else {
                assert(rows == rest);
            }
        }
    }
}

pub proof fn lemma_class_rows_uniform(data: Seq<Record>, class: int, n: int)
    requires
        forall|i: int| 0 <= i < data.len() ==> (#[trigger] data[i].features@).len() == n,
    ensures
        forall|j: int|
            0 <= j < class_rows(data, class).len() ==> (#[trigger] class_rows(data, class)[j]).len()
                == n,
    decreases data.len(),
{
    if data.len() > 0 {
        assert(forall|i: int|
            0 <= i < data.drop_last().len() ==> (#[trigger] data.drop_last()[i].features@).len()
                == n) by {
            assert(forall|i: int|
                0 <= i < data.drop_last().len() ==> data.drop_last()[i] == data[i]);
        }
        lemma_class_rows_uniform(data.drop_last(), class, n);
        assert(data.last() == data[data.len() - 1]);
        assert(data.last().features@.len() == n);
        let rest = class_rows(data.drop_last(), class);
        let rows = class_rows(data, class);
        assert forall|j: int| 0 <= j < rows.len() implies (#[trigger] rows[j]).len() == n by {
            if data.last().label.spec_number() == class {
                assert(rows == rest.push(data.last().features@));
                if j < rest.len() {
                    assert(rows[j] == rest[j]);
                } else {
                    assert(rows[j] == data.last().features@);
                }
            } else {
                assert(rows == rest);
            }
        }
    }
}

/// Per-class summary: the stored mean/stdev lists and the class prior,
/// the prior scaled by `PROB_ONE`.
pub struct ClassData {
    pub meandev: Vec<u64>,
    pub stdev: Vec<u64>,
    pub prob: u64,
}

impl ClassData {
    /// Bounds every well-formed summary obeys.
    pub open spec fn wf(self) -> bool {
        &&& self.meandev@.len() == self.stdev@.len()
        &&& forall|i: int| 0 <= i < self.meandev@.len() ==> self.meandev@[i] <= VAL_MAX
        &&& forall|i: int| 0 <= i < self.stdev@.len() ==> self.stdev@[i] <= VAL_MAX
        &&& self.prob <= PROB_ONE
    }

    /// An empty summary: no pairs, zero prior.
    pub fn new() -> (r: ClassData)
        ensures
            r.meandev@.len() == 0,
            r.stdev@.len() == 0,
            r.prob == 0,
            r.wf(),
    {
        ClassData { meandev: Vec::new(), stdev: Vec::new(), prob: 0 }
    }
}

/// The record-wise summary of class `class` over `data`: one mean/stdev
/// pair per record of the class, each across that record's own features,
/// and the prior `count * PROB_ONE / total` rounded down.
pub open spec fn class_data_for(cd: ClassData, data: Seq<Record>, class: int) -> bool {
    let rows = class_rows(data, class);
    &&& cd.meandev@.len() == rows.len()
    &&& cd.stdev@.len() == rows.len()
    &&& forall|j: int|
        0 <= j < rows.len() ==> cd.meandev@[j] == spec_mean(#[trigger] rows[j]) && cd.stdev@[j]
            == spec_stdev(rows[j])
    &&& cd.prob == rows.len() * PROB_ONE / data.len() as int
}

/// Record-wise statistics of one class (see the module header).
pub fn calc_class_data(data: &Vec<Record>, class: usize) -> (cd: ClassData)
    requires
        1 <= data@.len() <= LEN_MAX,
        rows_ok(data@),
    ensures
        class_data_for(cd, data@, class as int),
        cd.wf(),
{
    let ghost cls = class as int;
    let mut cd = ClassData::new();
    let mut i: usize = 0;
    while i < data.len()
        invariant
            cls == class as int,
            0 <= i <= data@.len(),
            1 <= data@.len() <= LEN_MAX,
            rows_ok(data@),
            cd.meandev@.len() == class_rows(data@.take(i as int), cls).len(),
            cd.stdev@.len() == cd.meandev@.len(),
            forall|j: int|
                0 <= j < cd.meandev@.len() ==> cd.meandev@[j] == spec_mean(
                    #[trigger] class_rows(data@.take(i as int), cls)[j],
                ) && cd.stdev@[j] == spec_stdev(class_rows(data@.take(i as int), cls)[j]),
            forall|j: int| 0 <= j < cd.meandev@.len() ==> #[trigger] cd.meandev@[j] <= VAL_MAX,
            forall|j: int| 0 <= j < cd.stdev@.len() ==> #[trigger] cd.stdev@[j] <= VAL_MAX,
            cd.prob == 0,
        decreases data@.len() - i,
    {
        proof {
            lemma_class_rows_step(data@, i as int, cls);
            assert(row_ok(data@[i as int].features@));
            assert(MAX_FEATURES <= LEN_MAX);
        }
        let rec = &data[i];
        if rec.label.number() == class {
            let m = mean(&rec.features);
            let s = stdev(&rec.features);
            cd.meandev.push(m);
            cd.stdev.push(s);
        }
        i = i + 1;
    }
    proof {
        assert(data@.take(data@.len() as int) =~= data@);
        lemma_class_rows_len(data@, cls);
        vstd::arithmetic::mul::lemma_mul_inequality(
            cd.meandev@.len() as int,
            data@.len() as int,
            PROB_ONE as int,
        );
        vstd::arithmetic::div_mod::lemma_div_is_ordered(
            cd.meandev@.len() as int * PROB_ONE as int,
            data@.len() as int * PROB_ONE as int,
            data@.len() as int,
        );
        vstd::arithmetic::div_mod::lemma_div_multiples_vanish(PROB_ONE as int, data@.len() as int);
        assert(data@.len() as int * PROB_ONE as int == PROB_ONE as int * data@.len() as int)
            by (nonlinear_arith);
        vstd::arithmetic::div_mod::lemma_div_pos_is_pos(
            cd.meandev@.len() as int * PROB_ONE as int,
            data@.len() as int,
        );
        assert(cd.meandev@.len() as int * PROB_ONE as int
            <= 1_000_000_000_000_000) by (nonlinear_arith)
            requires cd.meandev@.len() as int <= 1_000_000 && PROB_ONE == 1_000_000_000;
    }
    let count = cd.meandev.len();
    let prob128 = (count as u128) * (PROB_ONE as u128) / (data.len() as u128);
    cd.prob = prob128 as u64;
    cd
}

/// The feature-wise summary of class `class` over `data`: pair `f` is the
/// mean/stdev of feature `f` across all records of the class.
pub open spec fn class_data_by_feature_for(
    cd: ClassData,
    data: Seq<Record>,
    class: int,
    n_features: int,
) -> bool {
    let rows = class_rows(data, class);
    &&& cd.meandev@.len() == n_features
    &&& cd.stdev@.len() == n_features
    &&& forall|f: int|
        0 <= f < n_features ==> cd.meandev@[f] == spec_mean(#[trigger] column(rows, f))
            && cd.stdev@[f] == spec_stdev(column(rows, f))
    &&& cd.prob == rows.len() * PROB_ONE / data.len() as int
}

/// Column `f` of a sequence of rows.
pub open spec fn column(rows: Seq<Seq<u64>>, f: int) -> Seq<u64> {
    Seq::new(rows.len(), |j: int| rows[j][f])
}

/// Feature-wise statistics of one class (see the module header).
pub fn calc_class_data_by_feature(data: &Vec<Record>, class: usize, n_features: usize) -> (cd:
    ClassData)
    requires
        1 <= data@.len() <= LEN_MAX,
        valid_dataset(data@, n_features as int),
        1 <= n_features <= MAX_FEATURES,
        class_rows(data@, class as int).len() >= 1,
    ensures
        class_data_by_feature_for(cd, data@, class as int, n_features as int),
        cd.wf(),
{
    let ghost cls = class as int;
    let ghost rows = class_rows(data@, cls);
    proof {
        lemma_class_rows_len(data@, cls);
        lemma_class_rows_ok(data@, cls);
        lemma_class_rows_uniform(data@, cls, n_features as int);
    }
    let mut cd = ClassData::new();
    let mut f: usize = 0;
    while f < n_features
        invariant
            cls == class as int,
            0 <= f <= n_features,
            1 <= n_features <= MAX_FEATURES,
            1 <= data@.len() <= LEN_MAX,
            valid_dataset(data@, n_features as int),
            rows == class_rows(data@, cls),
            1 <= rows.len() <= data@.len(),
            forall|j: int| 0 <= j < rows.len() ==> row_ok(#[trigger] rows[j]),
            forall|j: int| 0 <= j < rows.len() ==> (#[trigger] rows[j]).len() == n_features,
            cd.meandev@.len() == f,
            cd.stdev@.len() == f,
            forall|g: int|
                0 <= g < f ==> cd.meandev@[g] == spec_mean(#[trigger] column(rows, g))
                    && cd.stdev@[g] == spec_stdev(column(rows, g)),
            forall|j: int| 0 <= j < cd.meandev@.len() ==> #[trigger] cd.meandev@[j] <= VAL_MAX,
            forall|j: int| 0 <= j < cd.stdev@.len() ==> #[trigger] cd.stdev@[j] <= VAL_MAX,
            cd.prob == 0,
        decreases n_features - f,
    {
        let mut col: Vec<u64> = Vec::new();
        let mut i: usize = 0;
        while i < data.len()
            invariant
                cls == class as int,
                0 <= i <= data@.len(),
                0 <= f < n_features,
                1 <= data@.len() <= LEN_MAX,
                valid_dataset(data@, n_features as int),
                rows == class_rows(data@, cls),
                forall|j: int| 0 <= j < rows.len() ==> row_ok(#[trigger] rows[j]),
                forall|j: int| 0 <= j < rows.len() ==> (#[trigger] rows[j]).len() == n_features,
                col@ =~= column(class_rows(data@.take(i as int), cls), f as int),
                col@.len() == class_rows(data@.take(i as int), cls).len(),
            decreases data@.len() - i,
        {
            proof {
                lemma_class_rows_step(data@, i as int, cls);
                lemma_class_rows_uniform(
                    data@.take(i as int + 1),
                    cls,
                    n_features as int,
                );
            }
            let rec = &data[i];
            if rec.label.number() == class {
                col.push(rec.features[f]);
                proof {
                    assert(col@ =~= column(class_rows(data@.take(i as int + 1), cls), f as int));
                }
            }
            i = i + 1;
        }
        proof {
            assert(data@.take(data@.len() as int) =~= data@);
            assert(col@ =~= column(rows, f as int));
            assert(forall|j: int| 0 <= j < col@.len() ==> #[trigger] col@[j] <= VAL_MAX) by {
                assert(forall|j: int|
                    0 <= j < rows.len() ==> row_ok(#[trigger] rows[j]) && 0 <= (f as int)
                        < rows[j].len());
            }
        }
        let m = mean(&col);
        let s = stdev(&col);
        cd.meandev.push(m);
        cd.stdev.push(s);
        f = f + 1;
    }
    proof {
        vstd::arithmetic::mul::lemma_mul_inequality(
            rows.len() as int,
            data@.len() as int,
            PROB_ONE as int,
        );
        vstd::arithmetic::div_mod::lemma_div_is_ordered(
            rows.len() as int * PROB_ONE as int,
            data@.len() as int * PROB_ONE as int,
            data@.len() as int,
        );
        vstd::arithmetic::div_mod::lemma_div_multiples_vanish(PROB_ONE as int, data@.len() as int);
        assert(data@.len() as int * PROB_ONE as int == PROB_ONE as int * data@.len() as int)
            by (nonlinear_arith);
        vstd::arithmetic::div_mod::lemma_div_pos_is_pos(
            rows.len() as int * PROB_ONE as int,
            data@.len() as int,
        );
        assert(rows.len() as int * PROB_ONE as int <= 1_000_000_000_000_000) by (nonlinear_arith)
            requires rows.len() as int <= 1_000_000 && PROB_ONE == 1_000_000_000;
    }
    let count = count_class(data, class);
    let prob128 = (count as u128) * (PROB_ONE as u128) / (data.len() as u128);
    cd.prob = prob128 as u64;
    cd
}


/// Position of index `i + off` within the statistic lists, with a usable
/// (nonzero) standard deviation there.
pub open spec fn stat_index_ok(cd: ClassData, off: int, i: int) -> bool {
    &&& i + off < cd.meandev@.len()
    &&& cd.stdev@[i + off] != 0
}

/// Every feature of `test` finds a usable mean/stdev pair at offset `off`.
pub open spec fn stats_ok_at(test: Seq<u64>, cd: ClassData, off: int) -> bool {
    forall|i: int| 0 <= i < test.len() ==> #[trigger] stat_index_ok(cd, off, i)
}

/// The offset at which scoring reads the statistic lists: `len / 5` for
/// the record-wise layout, `0` for the feature-wise one.
pub open spec fn score_offset(cd: ClassData, record_wise: bool) -> int {
    if record_wise {
        cd.meandev@.len() as int / 5
    } else {
        0
    }
}

/// Product of the first `n` per-feature densities, scaled by `PROB_ONE`
/// and rounded down after each factor.
pub open spec fn spec_prob_product(test: Seq<u64>, cd: ClassData, off: int, n: int) -> int
    decreases n,
{
    if n <= 0 {
        PROB_ONE as int
    } else {
        spec_prob_product(test, cd, off, n - 1) * spec_prob_of(
            test[n - 1] as int,
            cd.meandev@[n - 1 + off] as int,
            cd.stdev@[n - 1 + off] as int,
        ) / PROB_ONE as int
    }
}

/// The class score: the density product times the class prior.
pub open spec fn spec_class_score(test: Seq<u64>, cd: ClassData, off: int) -> int {
    spec_prob_product(test, cd, off, test.len() as int) * cd.prob / PROB_ONE as int
}

/// What scoring one class returns: the score, or a domain error where an
/// index runs off the statistic lists or meets a zero standard deviation.
pub open spec fn spec_class_prob(test: Seq<u64>, cd: ClassData, record_wise: bool) -> Result<
    int,
    Error,
> {
    if stats_ok_at(test, cd, score_offset(cd, record_wise)) {
        Ok(spec_class_score(test, cd, score_offset(cd, record_wise)))
    } else {
        Err(Error::Domain)
    }
}

/// `4000^k`: the per-factor growth bound of a class score (one density
/// is at most `4000 * PROB_ONE`).
pub open spec fn pow4000(k: int) -> int
    decreases k,
{
    if k <= 0 {
        1
    } else {
        4000 * pow4000(k - 1)
    }
}

proof fn lemma_pow4000_bounds(k: int)
    requires
        0 <= k <= 5,
    ensures
        1 <= pow4000(k),
        pow4000(k) <= 1_024_000_000_000_000_000,
        k <= 4 ==> pow4000(k) <= 256_000_000_000_000,
{
    assert(pow4000(0) == 1);
    assert(pow4000(1) == 4000);
    assert(pow4000(2) == 16_000_000);
    assert(pow4000(3) == 64_000_000_000);
    assert(pow4000(4) == 256_000_000_000_000);
    assert(pow4000(5) == 1_024_000_000_000_000_000);
}

/// One scoring step keeps the score under its growth bound.
proof fn lemma_score_step(p: int, d: int, i: int)
    requires
        0 <= i,
        0 <= p <= PROB_ONE * pow4000(i),
        0 <= d <= 4000 * PROB_ONE,
    ensures
        0 <= p * d / PROB_ONE as int <= PROB_ONE * pow4000(i + 1),
{
    let bp = PROB_ONE * pow4000(i);
    vstd::arithmetic::mul::lemma_mul_inequality(p, bp, d);
    assert(bp * d <= bp * (4000 * PROB_ONE)) by (nonlinear_arith)
        requires 0 <= d <= 4000 * PROB_ONE && bp >= 0;
    assert(bp * (4000 * PROB_ONE) == PROB_ONE as int * (bp * 4000)) by (nonlinear_arith);
    vstd::arithmetic::div_mod::lemma_div_is_ordered(
        p * d,
        PROB_ONE as int * (bp * 4000),
        PROB_ONE as int,
    );
    vstd::arithmetic::div_mod::lemma_div_multiples_vanish(bp * 4000, PROB_ONE as int);
    assert(PROB_ONE * pow4000(i + 1) == bp * 4000) by (nonlinear_arith)
        requires pow4000(i + 1) == 4000 * pow4000(i) && bp == PROB_ONE * pow4000(i);
    assert(p * d >= 0) by (nonlinear_arith)
        requires p >= 0 && d >= 0;
    vstd::arithmetic::div_mod::lemma_div_pos_is_pos(p * d, PROB_ONE as int);
}

/// Scores `test` against one class's statistics at offset `off`.
fn class_prob_at(test_data: &Vec<u64>, cd: &ClassData, off: usize) -> (r: Result<u128, Error>)
    requires
        1 <= test_data@.len() <= MAX_FEATURES,
        forall|i: int| 0 <= i < test_data@.len() ==> test_data@[i] <= VAL_MAX,
        cd.wf(),
        off <= LEN_MAX,
    ensures
        (r is Err) <==> !stats_ok_at(test_data@, *cd, off as int),
        r is Err ==> r == Err::<u128, Error>(Error::Domain),
        r is Ok ==> r->Ok_0 == spec_class_score(test_data@, *cd, off as int),
{
    let n = test_data.len();
    let mut p: u128 = PROB_ONE as u128;
    let mut i: usize = 0;
    while i < n
        invariant
            0 <= i <= n,
            n == test_data@.len(),
            1 <= n <= MAX_FEATURES,
            forall|k: int| 0 <= k < test_data@.len() ==> test_data@[k] <= VAL_MAX,
            cd.wf(),
            off <= LEN_MAX,
            forall|k: int| 0 <= k < i ==> #[trigger] stat_index_ok(*cd, off as int, k),
            p == spec_prob_product(test_data@, *cd, off as int, i as int),
            p <= PROB_ONE * pow4000(i as int),
        decreases n - i,
    {
        let idx = i + off;
        if idx >= cd.meandev.len() {
            proof {
                assert(!stat_index_ok(*cd, off as int, i as int));
                assert(!stats_ok_at(test_data@, *cd, off as int));
            }
            return Err(Error::Domain);
        }
        let sd = cd.stdev[idx];
        if sd == 0 {
            proof {
                assert(!stat_index_ok(*cd, off as int, i as int));
                assert(!stats_ok_at(test_data@, *cd, off as int));
            }
            return Err(Error::Domain);
        }
        let d = prob_of(test_data[i], cd.meandev[idx], sd);
        proof {
            lemma_pow4000_bounds(i as int);
            assert(DENSITY_MAX <= 4000 * PROB_ONE);
            lemma_score_step(p as int, d as int, i as int);
            assert(p as int * d as int <= 1_100_000_000_000_000_000_000_000_000_000_000_000)
                by (nonlinear_arith)
                requires
                    0 <= (p as int) && p as int <= 256_000_000_000_000_000_000_000
                        && 0 <= (d as int) && d as int <= 4_000_000_000_000;
            assert(stat_index_ok(*cd, off as int, i as int));
        }
        p = p * (d as u128) / (PROB_ONE as u128);
        i = i + 1;
    }
    proof {
        assert(stats_ok_at(test_data@, *cd, off as int));
        lemma_pow4000_bounds(n as int);
        vstd::arithmetic::mul::lemma_mul_inequality(
            p as int,
            PROB_ONE * pow4000(n as int),
            cd.prob as int,
        );
        assert((PROB_ONE * pow4000(n as int)) * cd.prob
            <= 1_100_000_000_000_000_000_000_000_000_000_000_000) by (nonlinear_arith)
            requires
                0 <= PROB_ONE * pow4000(n as int) <= 1_024_000_000_000_000_000_000_000_000
                    && 0 <= (cd.prob as int) && cd.prob as int <= 1_000_000_000;
        assert(p as int * cd.prob as int >= 0) by (nonlinear_arith)
            requires 0 <= (p as int) && 0 <= (cd.prob as int);
    }
    let score = p * (cd.prob as u128) / (PROB_ONE as u128);
    Ok(score)
}

/// Scores `test_data` against one class's record-wise statistics: the
/// product of the per-feature densities read at `i + len / 5`, times the
/// class prior.
pub fn class_prob(test_data: &Vec<u64>, cd: &ClassData) -> (r: Result<u128, Error>)
    requires
        1 <= test_data@.len() <= MAX_FEATURES,
        forall|i: int| 0 <= i < test_data@.len() ==> test_data@[i] <= VAL_MAX,
        cd.wf(),
        cd.meandev@.len() <= LEN_MAX,
    ensures
        (r is Err) <==> (spec_class_prob(test_data@, *cd, true) is Err),
        r is Err ==> r == Err::<u128, Error>(Error::Domain),
        r is Ok ==> r->Ok_0 == spec_class_prob(test_data@, *cd, true)->Ok_0,
{
    let off = cd.meandev.len() / 5;
    class_prob_at(test_data, cd, off)
}

/// Scores `test_data` against one class's feature-wise statistics: the
/// product of the per-feature densities read at `i`, times the prior.
pub fn class_prob_by_feature(test_data: &Vec<u64>, cd: &ClassData) -> (r: Result<u128, Error>)
    requires
        1 <= test_data@.len() <= MAX_FEATURES,
        forall|i: int| 0 <= i < test_data@.len() ==> test_data@[i] <= VAL_MAX,
        cd.wf(),
        cd.meandev@.len() <= LEN_MAX,
    ensures
        (r is Err) <==> (spec_class_prob(test_data@, *cd, false) is Err),
        r is Err ==> r == Err::<u128, Error>(Error::Domain),
        r is Ok ==> r->Ok_0 == spec_class_prob(test_data@, *cd, false)->Ok_0,
{
    class_prob_at(test_data, cd, 0)
}


/// Number of records of class `class` in `data`.
pub fn count_class(data: &Vec<Record>, class: usize) -> (r: usize)
    ensures
        r == class_rows(data@, class as int).len(),
{
    let ghost cls = class as int;
    let mut count: usize = 0;
    let mut i: usize = 0;
    while i < data.len()
        invariant
            cls == class as int,
            0 <= i <= data@.len(),
            count == class_rows(data@.take(i as int), cls).len(),
            count <= i,
        decreases data@.len() - i,
    {
        proof {
            lemma_class_rows_step(data@, i as int, cls);
            lemma_class_rows_len(data@.take(i as int), cls);
        }
        let rec = &data[i];
        if rec.label.number() == class {
            count = count + 1;
        }
        i = i + 1;
    }
    proof {
        assert(data@.take(data@.len() as int) =~= data@);
    }
    count
}

/// Index of the first maximum of a nonempty sequence.
pub open spec fn first_max(s: Seq<int>) -> int
    decreases s.len(),
{
    if s.len() <= 1 {
        0
    } else {
        let r = first_max(s.drop_last());
        if s.last() > s[r] {
            s.len() - 1
        } else {
            r
        }
    }
}

/// The first maximum holds the largest value, and every position before
/// it holds a strictly smaller one: ties go to the lowest index.
pub proof fn lemma_first_max_props(s: Seq<int>)
    requires
        s.len() >= 1,
    ensures
        0 <= first_max(s) < s.len(),
        forall|j: int| 0 <= j < s.len() ==> #[trigger] s[j] <= s[first_max(s)],
        forall|j: int| 0 <= j < first_max(s) ==> #[trigger] s[j] < s[first_max(s)],
    decreases s.len(),
{
    if s.len() > 1 {
        lemma_first_max_props(s.drop_last());
        assert(forall|j: int| 0 <= j < s.len() - 1 ==> s[j] == s.drop_last()[j]);
        assert(s.last() == s[s.len() - 1]);
    }
}

/// The classifier: one summary per class once fitted, and the configured
/// feature count.
pub struct Classifier {
    pub classes: Vec<ClassData>,
    pub n_features: usize,
}

impl Classifier {
    /// Structural bounds every classifier obeys.
    pub open spec fn wf(self) -> bool {
        &&& 1 <= self.n_features <= MAX_FEATURES
        &&& forall|c: int|
            0 <= c < self.classes@.len() ==> (#[trigger] self.classes@[c]).wf()
                && self.classes@[c].meandev@.len() <= LEN_MAX
    }

    /// One summary per class is present.
    pub open spec fn fitted(self) -> bool {
        self.classes@.len() == CLASSES
    }

    /// An unfitted classifier for the default feature count.
    pub fn new() -> (r: Classifier)
        ensures
            r.wf(),
            r.classes@.len() == 0,
            r.n_features == INPUT_LEN,
    {
        Classifier { classes: Vec::new(), n_features: INPUT_LEN }
    }

    /// An unfitted classifier for `n_features` features per record.
    pub fn with_feature_count(n_features: usize) -> (r: Classifier)
        requires
            1 <= n_features <= MAX_FEATURES,
        ensures
            r.wf(),
            r.classes@.len() == 0,
            r.n_features == n_features,
    {
        Classifier { classes: Vec::new(), n_features }
    }

    /// Fits record-wise statistics (see the module header) for the three
    /// classes, in class order. Fitting twice would duplicate entries, so
    /// it is only offered on a freshly constructed classifier.
    pub fn fit(&mut self, data: &Vec<Record>)
        requires
            old(self).wf(),
            old(self).classes@.len() == 0,
            1 <= data@.len() <= LEN_MAX,
            rows_ok(data@),
        ensures
            final(self).wf(),
            final(self).fitted(),
            final(self).n_features == old(self).n_features,
            forall|c: int|
                0 <= c < CLASSES ==> class_data_for(
                    #[trigger] final(self).classes@[c],
                    data@,
                    c + 1,
                ),
    {
        let cd1 = calc_class_data(data, 1);
        let cd2 = calc_class_data(data, 2);
        let cd3 = calc_class_data(data, 3);
        proof {
            lemma_class_rows_len(data@, 1);
            lemma_class_rows_len(data@, 2);
            lemma_class_rows_len(data@, 3);
        }
        self.classes.push(cd1);
        self.classes.push(cd2);
        self.classes.push(cd3);
        proof {
            assert(self.classes@.len() == 3);
            assert(self.classes@[0] == cd1);
            assert(self.classes@[1] == cd2);
            assert(self.classes@[2] == cd3);
        }
    }

    /// Fits feature-wise statistics (canonical Gaussian naive Bayes) for
    /// the three classes. A class with no training records has no mean,
    /// so that case is rejected as a domain error, leaving the
    /// classifier unfitted.
    pub fn fit_by_feature(&mut self, data: &Vec<Record>) -> (r: Result<(), Error>)
        requires
            old(self).wf(),
            old(self).classes@.len() == 0,
            1 <= data@.len() <= LEN_MAX,
            valid_dataset(data@, old(self).n_features as int),
        ensures
            final(self).wf(),
            final(self).n_features == old(self).n_features,
            (r is Ok) <==> (forall|c: int|
                1 <= c <= CLASSES ==> #[trigger] class_rows(data@, c).len() >= 1),
            r is Ok ==> final(self).fitted() && forall|c: int|
                0 <= c < CLASSES ==> class_data_by_feature_for(
                    #[trigger] final(self).classes@[c],
                    data@,
                    c + 1,
                    final(self).n_features as int,
                ),
            r is Err ==> r == Err::<(), Error>(Error::Domain) && *final(self) == *old(self),
    {
        let c1 = count_class(data, 1);
        let c2 = count_class(data, 2);
        let c3 = count_class(data, 3);
        if c1 == 0 || c2 == 0 || c3 == 0 {
            return Err(Error::Domain);
        }
        proof {
            assert forall|c: int| 1 <= c <= CLASSES implies #[trigger] class_rows(data@, c).len()
                >= 1 by {
                if c == 1 {
                } else if c == 2 {
                } else {
                    assert(c == 3);
                }
            }
        }
        let n_features = self.n_features;
        let cd1 = calc_class_data_by_feature(data, 1, n_features);
        let cd2 = calc_class_data_by_feature(data, 2, n_features);
        let cd3 = calc_class_data_by_feature(data, 3, n_features);
        self.classes.push(cd1);
        self.classes.push(cd2);
        self.classes.push(cd3);
        proof {
            assert(self.classes@.len() == 3);
            assert(self.classes@[0] == cd1);
            assert(self.classes@[1] == cd2);
            assert(self.classes@[2] == cd3);
            assert(MAX_FEATURES <= LEN_MAX);
        }
        Ok(())
    }

    /// The three class scores for `test`, in class order.
    pub open spec fn spec_scores(self, test: Seq<u64>, record_wise: bool) -> Seq<int> {
        Seq::new(
            self.classes@.len(),
            |c: int|
                spec_class_score(
                    test,
                    self.classes@[c],
                    score_offset(self.classes@[c], record_wise),
                ),
        )
    }

    /// Every class can score `test` without a domain error.
    pub open spec fn all_stats_ok(self, test: Seq<u64>, record_wise: bool) -> bool {
        forall|c: int|
            0 <= c < self.classes@.len() ==> stats_ok_at(
                test,
                #[trigger] self.classes@[c],
                score_offset(self.classes@[c], record_wise),
            )
    }

    /// What prediction returns: the 1-based label of the first class with
    /// the maximal score, or a domain error where some class cannot score.
    pub open spec fn spec_predict(self, test: Seq<u64>, record_wise: bool) -> Result<
        ClassLabel,
        Error,
    > {
        if self.all_stats_ok(test, record_wise) {
            Ok(spec_label_of(first_max(self.spec_scores(test, record_wise)) + 1))
        } else {
            Err(Error::Domain)
        }
    }

    fn predict_mode(&self, test_data: &Vec<u64>, record_wise: bool) -> (r: Result<
        ClassLabel,
        Error,
    >)
        requires
            self.wf(),
            self.fitted(),
            1 <= test_data@.len() <= MAX_FEATURES,
            forall|i: int| 0 <= i < test_data@.len() ==> test_data@[i] <= VAL_MAX,
        ensures
            r == self.spec_predict(test_data@, record_wise),
    {
        let r0 = if record_wise {
            class_prob(test_data, &self.classes[0])
        } else {
            class_prob_by_feature(test_data, &self.classes[0])
        };
        let s0 = match r0 {
            Ok(p) => p,
            Err(_) => {
                return Err(Error::Domain);
            },
        };
        let r1 = if record_wise {
            class_prob(test_data, &self.classes[1])
        } else {
            class_prob_by_feature(test_data, &self.classes[1])
        };
        let s1 = match r1 {
            Ok(p) => p,
            Err(_) => {
                return Err(Error::Domain);
            },
        };
        let r2 = if record_wise {
            class_prob(test_data, &self.classes[2])
        } else {
            class_prob_by_feature(test_data, &self.classes[2])
        };
        let s2 = match r2 {
            Ok(p) => p,
            Err(_) => {
                return Err(Error::Domain);
            },
        };
        let ghost sc = self.spec_scores(test_data@, record_wise);
        proof {
            assert(sc.len() == 3);
            assert(sc[0] == s0 as int);
            assert(sc[1] == s1 as int);
            assert(sc[2] == s2 as int);
            assert forall|c: int|
                0 <= c < self.classes@.len() implies stats_ok_at(
                test_data@,
                #[trigger] self.classes@[c],
                score_offset(self.classes@[c], record_wise),
            ) by {
                if c == 0 {
                } else if c == 1 {
                } else {
                    assert(c == 2);
                }
            }
        }
        let mut best: usize = 0;
        let mut best_score = s0;
        if s1 > best_score {
            best = 1;
            best_score = s1;
        }
        if s2 > best_score {
            best = 2;
            best_score = s2;
        }
        proof {
            let t2 = sc.drop_last();
            let t1 = t2.drop_last();
            assert(t1.len() == 1 && t2.len() == 2);
            assert(first_max(t1) == 0);
            assert(t2[0] == sc[0] && t2[1] == sc[1]);
            assert(t2.last() == sc[1]);
            assert(first_max(t2) == if sc[1] > sc[0] { 1int } else { 0int });
            assert(sc.last() == sc[2]);
            assert(best as int == first_max(sc));
        }
        let label = if best == 0 {
            ClassLabel::Setosa
        } else if best == 1 {
            ClassLabel::Versicolor
        } else {
            ClassLabel::Virginica
        };
        Ok(label)
    }

    /// Predicts with the record-wise statistics `fit` stored, reading the
    /// pairs at `i + len / 5`: the first class with the maximal score
    /// wins, ties going to the lowest class number.
    pub fn predict(&self, test_data: &Vec<u64>) -> (r: Result<ClassLabel, Error>)
        requires
            self.wf(),
            self.fitted(),
            test_data@.len() == self.n_features,
            forall|i: int| 0 <= i < test_data@.len() ==> test_data@[i] <= VAL_MAX,
        ensures
            r == self.spec_predict(test_data@, true),
    {
        self.predict_mode(test_data, true)
    }

    /// Predicts with the feature-wise statistics `fit_by_feature` stored:
    /// canonical Gaussian naive Bayes, ties going to the lowest class
    /// number.
    pub fn predict_by_feature(&self, test_data: &Vec<u64>) -> (r: Result<ClassLabel, Error>)
        requires
            self.wf(),
            self.fitted(),
            test_data@.len() == self.n_features,
            forall|i: int| 0 <= i < test_data@.len() ==> test_data@[i] <= VAL_MAX,
        ensures
            r == self.spec_predict(test_data@, false),
    {
        self.predict_mode(test_data, false)
    }

    /// Predicts every record of `test` in order with the record-wise
    /// statistics; the first record that cannot be scored stops the run
    /// with its domain error.
    pub fn predict_all(&self, test: &Vec<Record>) -> (r: Result<Vec<ClassLabel>, Error>)
        requires
            self.wf(),
            self.fitted(),
            rows_ok(test@),
            forall|i: int|
                0 <= i < test@.len() ==> (#[trigger] test@[i].features@).len() == self.n_features,
        ensures
            r is Ok ==> r->Ok_0@.len() == test@.len() && forall|i: int|
                0 <= i < test@.len() ==> Ok::<ClassLabel, Error>(r->Ok_0@[i])
                    == self.spec_predict((#[trigger] test@[i]).features@, true),
            r is Err ==> r == Err::<Vec<ClassLabel>, Error>(Error::Domain) && exists|i: int|
                0 <= i < test@.len() && self.spec_predict(test@[i].features@, true) is Err,
    {
        let mut out: Vec<ClassLabel> = Vec::new();
        let mut i: usize = 0;
        while i < test.len()
            invariant
                0 <= i <= test@.len(),
                self.wf(),
                self.fitted(),
                rows_ok(test@),
                forall|k: int|
                    0 <= k < test@.len() ==> (#[trigger] test@[k].features@).len()
                        == self.n_features,
                out@.len() == i,
                forall|k: int|
                    0 <= k < i ==> Ok::<ClassLabel, Error>(out@[k]) == self.spec_predict(
                        (#[trigger] test@[k]).features@,
                        true,
                    ),
            decreases test@.len() - i,
        {
            let rec = &test[i];
            proof {
                assert(row_ok(test@[i as int].features@));
            }
            match self.predict(&rec.features) {
                Ok(label) => {
                    out.push(label);
                },
                Err(_) => {
                    proof {
                        assert(self.spec_predict(test@[i as int].features@, true) is Err);
                    }
                    return Err(Error::Domain);
                },
            }
            i = i + 1;
        }
        Ok(out)
    }
}

/// Number of positions where the prediction equals the record's label.
pub open spec fn spec_count_correct(preds: Seq<ClassLabel>, test: Seq<Record>) -> int
    decreases preds.len(),
{
    if preds.len() == 0 {
        0
    } else {
        spec_count_correct(preds.drop_last(), test.drop_last()) + if preds.last()
            == test.last().label {
            1int
        } else {
            0int
        }
    }
}

/// Tallies predictions against true labels: how many were right and how
/// many wrong, position by position.
pub fn count_correct(preds: &Vec<ClassLabel>, test: &Vec<Record>) -> (r: (usize, usize))
    requires
        preds@.len() == test@.len(),
    ensures
        r.0 == spec_count_correct(preds@, test@),
        r.0 + r.1 == test@.len(),
{
    let mut right: usize = 0;
    let mut i: usize = 0;
    while i < preds.len()
        invariant
            0 <= i <= preds@.len(),
            preds@.len() == test@.len(),
            right == spec_count_correct(preds@.take(i as int), test@.take(i as int)),
            right <= i,
        decreases preds@.len() - i,
    {
        proof {
            assert(preds@.take(i as int + 1).drop_last() =~= preds@.take(i as int));
            assert(test@.take(i as int + 1).drop_last() =~= test@.take(i as int));
            assert(preds@.take(i as int + 1).last() == preds@[i as int]);
            assert(test@.take(i as int + 1).last() == test@[i as int]);
        }
        let p = preds[i];
        let rec = &test[i];
        if p == rec.label {
            right = right + 1;
        }
        i = i + 1;
    }
    proof {
        assert(preds@.take(preds@.len() as int) =~= preds@);
        assert(test@.take(test@.len() as int) =~= test@);
    }
    (right, preds.len() - right)
}

} // verus!


