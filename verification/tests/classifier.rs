// Fitting and prediction, on both statistic layouts.

use iris_bayes::classify::{count_class, count_correct, Classifier};
use iris_bayes::{class_name, ClassLabel, Error, Record};

fn rec(f: [u64; 4], label: ClassLabel) -> Record {
    Record { features: f.to_vec(), label }
}

// Five genuine iris rows per class, fixed point at 1e4.
fn iris_training() -> Vec<Record> {
    let mut v = Vec::new();
    for f in [
        [51_000, 35_000, 14_000, 2_000],
        [49_000, 30_000, 14_000, 2_000],
        [47_000, 32_000, 13_000, 2_000],
        [46_000, 31_000, 15_000, 2_000],
        [50_000, 36_000, 14_000, 3_000],
    ] {
        v.push(rec(f, ClassLabel::Setosa));
    }
    for f in [
        [70_000, 32_000, 47_000, 14_000],
        [64_000, 32_000, 45_000, 15_000],
        [69_000, 31_000, 49_000, 15_000],
        [55_000, 23_000, 40_000, 13_000],
        [65_000, 28_000, 46_000, 15_000],
    ] {
        v.push(rec(f, ClassLabel::Versicolor));
    }
    for f in [
        [63_000, 33_000, 60_000, 25_000],
        [58_000, 27_000, 51_000, 19_000],
        [71_000, 30_000, 59_000, 21_000],
        [63_000, 29_000, 56_000, 18_000],
        [65_000, 30_000, 58_000, 22_000],
    ] {
        v.push(rec(f, ClassLabel::Virginica));
    }
    v
}

#[test]
fn class_names() {
    assert_eq!(class_name(1), "setosa");
    assert_eq!(class_name(2), "versicolor");
    assert_eq!(class_name(3), "virginica");
}

#[test]
fn label_numbers_round_trip() {
    for n in 1..=3usize {
        let l = ClassLabel::from_number(n).unwrap();
        assert_eq!(l.number(), n);
    }
    assert_eq!(ClassLabel::from_number(0), None);
    assert_eq!(ClassLabel::from_number(4), None);
}

#[test]
fn count_class_counts_labels() {
    let data = iris_training();
    assert_eq!(count_class(&data, 1), 5);
    assert_eq!(count_class(&data, 2), 5);
    assert_eq!(count_class(&data, 3), 5);
    assert_eq!(count_class(&data, 7), 0);
}

#[test]
fn fit_stores_one_pair_per_record_of_the_class() {
    // The record-wise layout: each class summary holds as many mean/stdev
    // pairs as the class had records, each across one record's own
    // features.
    let data = vec![rec([10, 20, 30, 40], ClassLabel::Setosa)];
    let mut c = Classifier::new();
    c.fit(&data);
    assert_eq!(c.classes.len(), 3);
    // mean of 10,20,30,40 = 25; variance = 750 - 625 = 125; isqrt = 11.
    assert_eq!(c.classes[0].meandev, vec![25]);
    assert_eq!(c.classes[0].stdev, vec![11]);
    assert_eq!(c.classes[0].prob, 1_000_000_000);
    assert_eq!(c.classes[1].meandev.len(), 0);
    assert_eq!(c.classes[1].prob, 0);
}

#[test]
fn predict_fails_with_domain_error_on_small_classes() {
    // With one training record per class the stored lists are length one,
    // but scoring reads four entries: the record-wise layout runs off the
    // end, which is a domain error.
    let data = vec![
        rec([51_000, 35_000, 14_000, 2_000], ClassLabel::Setosa),
        rec([70_000, 32_000, 47_000, 14_000], ClassLabel::Versicolor),
        rec([63_000, 33_000, 60_000, 25_000], ClassLabel::Virginica),
    ];
    let mut c = Classifier::new();
    c.fit(&data);
    let q = vec![51_000, 35_000, 14_000, 2_000];
    assert_eq!(c.predict(&q), Err(Error::Domain));
}

#[test]
fn predict_on_a_training_vector_is_pinned() {
    // Regression baseline: with the record-wise layout preserved, the
    // class predicted for a training record's own feature vector is
    // whatever the scheme computes, pinned here from an observed run.
    let data = iris_training();
    let mut c = Classifier::new();
    c.fit(&data);
    let first_setosa = vec![51_000, 35_000, 14_000, 2_000];
    assert_eq!(c.predict(&first_setosa), Ok(ClassLabel::Setosa));
}

#[test]
fn fit_then_predict_golden() {
    // Golden values for the record-wise layout on the fixed synthetic
    // training set: five records per class, so scoring reads pairs 1..=4.
    let data = iris_training();
    let mut c = Classifier::new();
    c.fit(&data);
    let versicolor_like = vec![55_000, 24_000, 38_000, 11_000];
    let virginica_like = vec![67_000, 31_000, 56_000, 24_000];
    assert_eq!(c.predict(&versicolor_like), Ok(ClassLabel::Versicolor));
    assert_eq!(c.predict(&virginica_like), Ok(ClassLabel::Virginica));
}

#[test]
fn predict_breaks_ties_toward_the_lowest_class() {
    // All three classes get identical training rows, so all three scores
    // are equal: the first maximum wins.
    let rows = [
        [10_000, 20_000, 30_000, 40_000],
        [20_000, 30_000, 40_000, 50_000],
        [30_000, 40_000, 50_000, 60_000],
        [40_000, 50_000, 60_000, 70_000],
    ];
    let mut data = Vec::new();
    for f in rows {
        data.push(rec(f, ClassLabel::Setosa));
    }
    for f in rows {
        data.push(rec(f, ClassLabel::Versicolor));
    }
    for f in rows {
        data.push(rec(f, ClassLabel::Virginica));
    }
    let mut c = Classifier::new();
    c.fit(&data);
    let q = vec![20_000, 30_000, 40_000, 50_000];
    assert_eq!(c.predict(&q), Ok(ClassLabel::Setosa));
}

#[test]
fn feature_wise_fit_predicts_the_three_example_vectors() {
    // The canonical (feature-wise) Gaussian naive Bayes classifies the
    // three example vectors as their intended species.
    let data = iris_training();
    let mut c = Classifier::new();
    c.fit_by_feature(&data).unwrap();
    let setosa = vec![51_000, 35_000, 14_000, 2_000];
    let versicolor = vec![55_000, 24_000, 38_000, 11_000];
    let virginica = vec![67_000, 31_000, 56_000, 24_000];
    assert_eq!(c.predict_by_feature(&setosa), Ok(ClassLabel::Setosa));
    assert_eq!(c.predict_by_feature(&versicolor), Ok(ClassLabel::Versicolor));
    assert_eq!(c.predict_by_feature(&virginica), Ok(ClassLabel::Virginica));
}

#[test]
fn feature_wise_fit_rejects_an_empty_class() {
    let data = vec![
        rec([51_000, 35_000, 14_000, 2_000], ClassLabel::Setosa),
        rec([70_000, 32_000, 47_000, 14_000], ClassLabel::Versicolor),
    ];
    let mut c = Classifier::new();
    assert_eq!(c.fit_by_feature(&data), Err(Error::Domain));
    assert_eq!(c.classes.len(), 0);
}

#[test]
fn predict_all_and_tally() {
    let data = iris_training();
    let mut c = Classifier::new();
    c.fit_by_feature(&data).unwrap();
    let test = vec![
        rec([50_000, 34_000, 15_000, 2_000], ClassLabel::Setosa),
        rec([66_000, 30_000, 44_000, 14_000], ClassLabel::Versicolor),
        rec([64_000, 28_000, 56_000, 21_000], ClassLabel::Virginica),
        rec([50_000, 34_000, 15_000, 2_000], ClassLabel::Virginica),
    ];
    let mut preds = Vec::new();
    for r in &test {
        preds.push(c.predict_by_feature(&r.features).unwrap());
    }
    let (right, wrong) = count_correct(&preds, &test);
    assert_eq!(right, 3);
    assert_eq!(wrong, 1);
    assert_eq!(preds[3], ClassLabel::Setosa);
}

#[test]
fn count_correct_empty() {
    let (right, wrong) = count_correct(&Vec::new(), &Vec::new());
    assert_eq!((right, wrong), (0, 0));
}

#[test]
fn configurable_feature_count() {
    let data = vec![
        rec2([10_000, 20_000], ClassLabel::Setosa),
        rec2([12_000, 22_000], ClassLabel::Setosa),
        rec2([90_000, 80_000], ClassLabel::Versicolor),
        rec2([88_000, 78_000], ClassLabel::Versicolor),
        rec2([50_000, 50_000], ClassLabel::Virginica),
        rec2([52_000, 48_000], ClassLabel::Virginica),
    ];
    let mut c = Classifier::with_feature_count(2);
    c.fit_by_feature(&data).unwrap();
    assert_eq!(c.predict_by_feature(&vec![11_000, 21_000]), Ok(ClassLabel::Setosa));
    assert_eq!(c.predict_by_feature(&vec![89_000, 79_000]), Ok(ClassLabel::Versicolor));
}

fn rec2(f: [u64; 2], label: ClassLabel) -> Record {
    Record { features: f.to_vec(), label }
}
