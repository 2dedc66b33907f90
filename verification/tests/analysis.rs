use cogset::{Euclid, Kmeans};
use rusty_machine::learning::naive_bayes::{Distribution, Gaussian, NaiveBayes};
use rusty_machine::learning::{LearningResult, SupModel};
use rusty_machine::linalg::{Axes, BaseMatrix, Matrix};
use secret_contracts::classification::{
    check_variances, coordinates_of, train, TrainingSet, VARIANCE_FLOOR,
};
use secret_contracts::clustering::{plan, Centre, ClusterJob};
use secret_contracts::codec::decode;
use secret_contracts::contract::{ClassificationJob, LocationContract};
use secret_contracts::decimal::Decimal;
use secret_contracts::error::ContractError;
use secret_contracts::ledger::{Location, LocationInput, LocationWithClass, LocationWithClassInput};
use secret_contracts::report::{class_frequencies, render_frequencies};
use std::f64::consts::PI;

fn dec(x: f64) -> Decimal {
    Decimal::from_bits(x.to_bits())
}

fn float(d: Decimal) -> f64 {
    f64::from_bits(d.to_bits())
}

fn at(latitude: i32, longitude: i32) -> Location {
    Location { latitude, longitude }
}

fn inputs(points: &[(f64, f64)]) -> Vec<LocationInput> {
    points.iter().map(|p| LocationInput { latitude: dec(p.0), longitude: dec(p.1) }).collect()
}

fn labeled_inputs(points: &[(f64, f64, f64)]) -> Vec<LocationWithClassInput> {
    points
        .iter()
        .map(|p| LocationWithClassInput {
            latitude: dec(p.0),
            longitude: dec(p.1),
            class: dec(p.2),
        })
        .collect()
}

fn labeled(latitude: i32, longitude: i32, class: u32) -> LocationWithClass {
    LocationWithClass { latitude, longitude, class }
}

/// Carries a job out and gives the centres in decimal units.
fn centroids(job: &ClusterJob) -> Vec<(f64, f64)> {
    match job {
        ClusterJob::EachPoint { centres } => {
            centres.iter().map(|c| (float(c.latitude), float(c.longitude))).collect()
        }
        ClusterJob::Mean { latitude_sum, longitude_sum, count } => {
            let n = *count as f64;
            vec![(*latitude_sum as f64 / n / 1_000_000.0, *longitude_sum as f64 / n / 1_000_000.0)]
        }
        ClusterJob::Partition { points, clusters } => {
            let data: Vec<Euclid<[f64; 2]>> =
                points.iter().map(|p| Euclid([p.latitude as f64, p.longitude as f64])).collect();
            let kmeans = Kmeans::new(&data, *clusters);
            kmeans
                .clusters()
                .iter()
                .map(|cluster| ((cluster.0).0[0] / 1_000_000.0, (cluster.0).0[1] / 1_000_000.0))
                .collect()
        }
    }
}

fn has_centroid_near(found: &[(f64, f64)], latitude: f64, longitude: f64) -> bool {
    found.iter().any(|c| (c.0 - latitude).abs() < 1e-6 && (c.1 - longitude).abs() < 1e-6)
}

/// A Gaussian per class and coordinate whose variance is the sample variance
/// of the class, or `VARIANCE_FLOOR` where the observations give none.
#[derive(Debug)]
struct FlooredGaussian {
    features: usize,
    theta: Vec<f64>,
    sigma: Vec<f64>,
    floored: Vec<bool>,
}

impl Distribution for FlooredGaussian {
    fn from_model_params(class_count: usize, features: usize) -> FlooredGaussian {
        FlooredGaussian {
            features,
            theta: vec![0.0; class_count * features],
            sigma: vec![VARIANCE_FLOOR as f64; class_count * features],
            floored: vec![true; class_count * features],
        }
    }

    fn update_params(&mut self, data: &Matrix<f64>, class: usize) -> LearningResult<()> {
        let mean = data.mean(Axes::Row).into_vec();
        let variance = data.variance(Axes::Row).ok().map(|v| v.into_vec());
        for idx in 0..self.features {
            let at = class * self.features + idx;
            self.theta[at] = mean[idx];
            match variance {
                Some(ref v) if v[idx] > 0.0 => {
                    self.sigma[at] = v[idx];
                    self.floored[at] = false;
                }
                _ => {
                    self.sigma[at] = VARIANCE_FLOOR as f64;
                    self.floored[at] = true;
                }
            }
        }
        Ok(())
    }

    fn joint_log_lik(
        &self,
        data: &Matrix<f64>,
        class_prior: &[f64],
    ) -> LearningResult<Matrix<f64>> {
        let mut scores = Vec::with_capacity(data.rows() * class_prior.len());
        for point in data.data().chunks(self.features) {
            for (class, prior) in class_prior.iter().enumerate() {
                let mut score = prior.ln();
                for (idx, x) in point.iter().enumerate() {
                    let at = class * self.features + idx;
                    let distance = x - self.theta[at];
                    score += -0.5 * (2.0 * PI * self.sigma[at]).ln()
                        - 0.5 * distance * distance / self.sigma[at];
                }
                scores.push(score);
            }
        }
        Ok(Matrix::new(data.rows(), class_prior.len(), scores))
    }
}

fn bits_of(variances: &[f64]) -> Vec<Decimal> {
    variances.iter().map(|v| dec(*v)).collect()
}

/// Fits a Gaussian naive Bayes model to the job's training set, the floored
/// one where the set says that a floor applies, and gives the indicator
/// matrix of its predictions.
fn predictions(job: &ClassificationJob) -> Vec<u8> {
    let set = &job.training;
    let classes = set.classes as usize;
    let features: Vec<f64> = set.inputs.iter().map(|x| *x as f64).collect();
    let indicators: Vec<f64> = set.targets.iter().map(|x| *x as f64).collect();
    let inputs = Matrix::new(set.points, 2, features);
    let targets = Matrix::new(set.points, classes, indicators);
    let queries: Vec<f64> = job.queries.iter().map(|x| *x as f64).collect();
    let queries = Matrix::new(job.points, 2, queries);
    let outputs = if set.floors.iter().any(|floor| *floor) {
        let mut model = NaiveBayes::<FlooredGaussian>::new();
        model.train(&inputs, &targets).unwrap();
        let fitted = model.distr().unwrap();
        assert_eq!(fitted.floored, set.floors);
        assert_eq!(check_variances(&bits_of(&fitted.sigma)), Ok(()));
        model.predict(&queries).unwrap()
    } else {
        let mut model = NaiveBayes::<Gaussian>::new();
        model.train(&inputs, &targets).unwrap();
        assert_eq!(check_variances(&bits_of(model.distr().unwrap().sigma().data())), Ok(()));
        model.predict(&queries).unwrap()
    };
    outputs.data().iter().map(|x| *x as u8).collect()
}

fn frequencies_of(contract: &LocationContract) -> Vec<u64> {
    let job = contract.classify().unwrap();
    class_frequencies(&predictions(&job), job.training.classes as usize).unwrap()
}

#[test]
fn cluster_rejects_no_clusters() {
    let mut contract = LocationContract::load(None, None);
    contract.add_location(&inputs(&[(1.0, 1.0), (2.0, 2.0), (3.0, 3.0)])).unwrap();
    assert_eq!(contract.cluster(0).err(), Some(ContractError::InvalidArgument));
}

#[test]
fn cluster_rejects_an_empty_ledger() {
    let contract = LocationContract::load(None, None);
    assert_eq!(contract.cluster(0).err(), Some(ContractError::InvalidArgument));
    assert_eq!(contract.cluster(1).err(), Some(ContractError::InvalidArgument));
    assert_eq!(contract.cluster(2).err(), Some(ContractError::InvalidArgument));
}

#[test]
fn cluster_rejects_more_clusters_than_points() {
    let points = vec![at(1, 1), at(2, 2), at(3, 3)];
    assert_eq!(plan(&points, 4).err(), Some(ContractError::InvalidArgument));
    assert_eq!(plan(&points, u32::MAX).err(), Some(ContractError::InvalidArgument));
    assert!(plan(&points, 1).is_ok());
    assert!(plan(&points, 2).is_ok());
    assert!(plan(&points, 3).is_ok());
}

#[test]
fn cluster_of_one_point_is_the_point() {
    let contract = LocationContract::load(Some(vec![at(1_234_567, -7_654_321)]), None);
    let job = contract.cluster(1).unwrap();
    match &job {
        ClusterJob::EachPoint { centres } => assert_eq!(
            centres,
            &vec![Centre { latitude: decode(1_234_567), longitude: decode(-7_654_321) }]
        ),
        other => panic!("unexpected job {:?}", other),
    }
    let found = centroids(&job);
    assert_eq!(found, vec![(1_234_567.0 / 1_000_000.0, -7_654_321.0 / 1_000_000.0)]);
    assert!((found[0].0 - 1.234567).abs() <= 5e-7);
    assert!((found[0].1 + 7.654321).abs() <= 5e-7);
}

#[test]
fn one_cluster_is_the_mean_of_all_points() {
    let contract = LocationContract::load(Some(vec![at(0, 0), at(2_000_000, 4_000_000)]), None);
    let job = contract.cluster(1).unwrap();
    match &job {
        ClusterJob::Mean { latitude_sum, longitude_sum, count } => {
            assert_eq!((*latitude_sum, *longitude_sum, *count), (2_000_000, 4_000_000, 2));
        }
        other => panic!("unexpected job {:?}", other),
    }
    assert_eq!(centroids(&job), vec![(1.0, 2.0)]);

    let spread = vec![at(-3, i32::MAX), at(i32::MIN, i32::MAX), at(7, i32::MAX)];
    match plan(&spread, 1).unwrap() {
        ClusterJob::Mean { latitude_sum, longitude_sum, count } => {
            assert_eq!(latitude_sum, i32::MIN as i128 + 4);
            assert_eq!(longitude_sum, 3 * (i32::MAX as i128));
            assert_eq!(count, 3);
        }
        other => panic!("unexpected job {:?}", other),
    }
}

#[test]
fn as_many_clusters_as_points_are_the_points() {
    let points = vec![at(1_000_000, 2_000_000), at(-3_500_000, 4_250_000), at(0, 1)];
    let job = plan(&points, 3).unwrap();
    assert_eq!(centroids(&job), vec![(1.0, 2.0), (-3.5, 4.25), (0.0, 0.000001)]);
}

#[test]
fn cluster_hands_the_ledger_to_k_means() {
    let points = vec![at(1, 1), at(2, 2), at(3, 3)];
    match plan(&points, 2).unwrap() {
        ClusterJob::Partition { points: handed, clusters } => {
            assert_eq!(handed, points);
            assert_eq!(clusters, 2);
        }
        other => panic!("unexpected job {:?}", other),
    }
}

#[test]
fn cluster_of_two_pairs() {
    let mut contract = LocationContract::load(None, None);
    contract.add_location(&inputs(&[(1.0, 1.0), (1.0, 1.1), (50.0, 50.0), (50.1, 50.0)])).unwrap();
    let found = centroids(&contract.cluster(2).unwrap());
    assert_eq!(found.len(), 2);
    assert!(has_centroid_near(&found, 1.0, 1.05));
    assert!(has_centroid_near(&found, 50.05, 50.0));
    // the analysis leaves the ledger as it was
    assert_eq!(contract.locations().len(), 4);
}

#[test]
fn cluster_finds_separated_groups() {
    let mut contract = LocationContract::load(None, None);
    contract
        .add_location(&inputs(&[
            (0.0, 0.0),
            (10.0, 10.0),
            (20.0, -20.0),
            (0.2, 0.0),
            (10.0, 10.2),
            (20.2, -20.0),
            (0.1, 0.3),
            (10.3, 10.1),
            (20.1, -20.3),
        ]))
        .unwrap();
    let found = centroids(&contract.cluster(3).unwrap());
    assert_eq!(found.len(), 3);
    assert!(has_centroid_near(&found, 0.1, 0.1));
    assert!(has_centroid_near(&found, 10.1, 10.1));
    assert!(has_centroid_near(&found, 20.1, -20.1));

    let mut one_group = LocationContract::load(None, None);
    one_group.add_location(&inputs(&[(5.0, 5.0), (5.2, 5.0), (5.1, 5.3)])).unwrap();
    let found = centroids(&one_group.cluster(1).unwrap());
    assert_eq!(found.len(), 1);
    assert!(has_centroid_near(&found, 5.1, 5.1));
}

#[test]
fn train_rejects_an_empty_set() {
    assert_eq!(train(&vec![]).err(), Some(ContractError::InvalidArgument));
    assert_eq!(
        LocationContract::train_classifier(&vec![]).err(),
        Some(ContractError::InvalidArgument)
    );
    let contract = LocationContract::load(Some(vec![at(1, 1)]), None);
    assert_eq!(contract.classify().err(), Some(ContractError::InvalidArgument));
}

#[test]
fn train_lays_out_its_matrices() {
    let set: TrainingSet =
        train(&vec![labeled(1, 2, 1), labeled(3, 5, 0), labeled(4, 4, 1), labeled(-7, 9, 0)])
            .unwrap();
    assert_eq!(set.points, 4);
    assert_eq!(set.classes, 2);
    assert_eq!(set.inputs, vec![1, 2, 3, 5, 4, 4, -7, 9]);
    assert_eq!(set.targets, vec![0, 1, 1, 0, 0, 1, 1, 0]);
    assert_eq!(set.floors, vec![false, false, false, false]);
}

#[test]
fn train_counts_classes_up_to_the_largest_label() {
    let set = train(&vec![
        labeled(1, 2, 2),
        labeled(3, 5, 0),
        labeled(4, 4, 1),
        labeled(-7, 9, 0),
        labeled(0, 0, 1),
        labeled(5, 5, 2),
    ])
    .unwrap();
    assert_eq!(set.classes, 3);
    assert_eq!(set.targets, vec![0, 0, 1, 1, 0, 0, 0, 1, 0, 1, 0, 0, 0, 1, 0, 0, 0, 1]);
    assert_eq!(set.floors, vec![false; 6]);
}

#[test]
fn train_marks_where_the_floor_applies() {
    assert_eq!(VARIANCE_FLOOR, 1);
    // one observation in class 1
    let one = train(&vec![labeled(1, 2, 0), labeled(3, 5, 0), labeled(4, 4, 1)]).unwrap();
    assert_eq!(one.floors, vec![false, false, true, true]);
    // class 1 never changes its longitude
    let flat = vec![labeled(1, 2, 0), labeled(3, 5, 0), labeled(4, 4, 1), labeled(6, 4, 1)];
    let flat = train(&flat).unwrap();
    assert_eq!(flat.floors, vec![false, false, false, true]);
    // class 0 never changes its latitude
    let flat = vec![labeled(3, 2, 0), labeled(3, 5, 0), labeled(4, 4, 1), labeled(6, 5, 1)];
    let flat = train(&flat).unwrap();
    assert_eq!(flat.floors, vec![true, false, false, false]);
    // no observation in class 1
    let gap = vec![labeled(1, 2, 0), labeled(3, 5, 0), labeled(4, 4, 2), labeled(6, 7, 2)];
    let gap = train(&gap).unwrap();
    assert_eq!(gap.classes, 3);
    assert_eq!(gap.floors, vec![false, false, true, true, false, false]);
    assert_eq!(gap.targets, vec![1, 0, 0, 1, 0, 0, 0, 0, 1, 0, 0, 1]);
    // a single observation
    let single = train(&vec![labeled(1, 2, 0)]).unwrap();
    assert_eq!((single.points, single.classes), (1, 1));
    assert_eq!(single.floors, vec![true, true]);
}

#[test]
fn train_classifier_encodes_before_it_lays_out() {
    let set = LocationContract::train_classifier(&labeled_inputs(&[
        (0.0, 0.0, 0.0),
        (1.0, 1.0, 0.9),
        (10.0, 10.0, 1.0),
        (11.0, 11.5, 1.2),
    ]))
    .unwrap();
    assert_eq!(set.points, 4);
    assert_eq!(set.classes, 2);
    assert_eq!(
        set.inputs,
        vec![0, 0, 1_000_000, 1_000_000, 10_000_000, 10_000_000, 11_000_000, 11_500_000]
    );
    assert_eq!(set.targets, vec![1, 0, 1, 0, 0, 1, 0, 1]);
    assert_eq!(set.floors, vec![false; 4]);
    let bad = labeled_inputs(&[(0.0, 0.0, 0.0), (1.0, 1.0, -1.0)]);
    assert_eq!(
        LocationContract::train_classifier(&bad).err(),
        Some(ContractError::InvalidArgument)
    );
    let bad = labeled_inputs(&[(0.0, f64::NAN, 0.0)]);
    assert_eq!(
        LocationContract::train_classifier(&bad).err(),
        Some(ContractError::MalformedInput)
    );
    let bad = labeled_inputs(&[(0.0, 1e9, 0.0)]);
    assert_eq!(
        LocationContract::train_classifier(&bad).err(),
        Some(ContractError::EncodingOverflow)
    );
}

#[test]
fn coordinates_are_rows_of_latitude_and_longitude() {
    let points = vec![at(1, -2), at(3, 4)];
    assert_eq!(coordinates_of(&points), vec![1, -2, 3, 4]);
    assert_eq!(coordinates_of(&vec![]), Vec::<i32>::new());
}

fn four_labelled_points() -> Vec<LocationWithClassInput> {
    labeled_inputs(&[(0.0, 0.0, 0.0), (0.0, 1.0, 0.0), (10.0, 10.0, 1.0), (10.0, 11.0, 1.0)])
}

#[test]
fn classify_of_four_labelled_points_lays_out_the_floors() {
    let mut contract = LocationContract::load(None, None);
    contract.add_training_data(&four_labelled_points()).unwrap();
    contract.add_location(&inputs(&[(0.5, 0.5), (10.5, 10.5)])).unwrap();
    let job = contract.classify().unwrap();
    assert_eq!(job.training.points, 4);
    assert_eq!(job.training.classes, 2);
    assert_eq!(
        job.training.inputs,
        vec![0, 0, 0, 1_000_000, 10_000_000, 10_000_000, 10_000_000, 11_000_000]
    );
    assert_eq!(job.training.targets, vec![1, 0, 1, 0, 0, 1, 0, 1]);
    // neither class changes its latitude
    assert_eq!(job.training.floors, vec![true, false, true, false]);
    assert_eq!(job.points, 2);
    assert_eq!(job.queries, vec![500_000, 500_000, 10_500_000, 10_500_000]);
}

#[test]
fn classify_of_four_labelled_points_and_a_point_near_the_first_class() {
    let mut contract = LocationContract::load(None, None);
    contract.add_training_data(&four_labelled_points()).unwrap();
    contract.add_location(&inputs(&[(0.5, 0.5)])).unwrap();
    let frequencies = frequencies_of(&contract);
    assert_eq!(frequencies, vec![1, 0]);
    assert!(frequencies[0] > frequencies[1]);
    assert_eq!(render_frequencies(&frequencies), "Class 0: 1. Class 1: 0. ");
}

#[test]
fn classify_of_four_labelled_points_and_a_point_near_the_second_class() {
    let mut contract = LocationContract::load(None, None);
    contract.add_training_data(&four_labelled_points()).unwrap();
    contract.add_location(&inputs(&[(10.5, 10.5)])).unwrap();
    let frequencies = frequencies_of(&contract);
    assert_eq!(frequencies, vec![0, 1]);
    assert!(frequencies[1] > frequencies[0]);
}

#[test]
fn classify_of_four_labelled_points_and_both_points() {
    let mut contract = LocationContract::load(None, None);
    contract.add_training_data(&four_labelled_points()).unwrap();
    contract.add_location(&inputs(&[(0.5, 0.5), (10.5, 10.5)])).unwrap();
    let job = contract.classify().unwrap();
    let predicted = predictions(&job);
    assert_eq!(predicted, vec![1, 0, 0, 1]);
    let frequencies = class_frequencies(&predicted, 2).unwrap();
    assert_eq!(frequencies, vec![1, 1]);
    assert_eq!(render_frequencies(&frequencies), "Class 0: 1. Class 1: 1. ");
    // the analysis leaves both ledgers as they were
    assert_eq!(contract.locations().len(), 2);
    assert_eq!(contract.training_data().len(), 4);
}

#[test]
fn classify_with_a_class_that_has_no_observation() {
    let mut contract = LocationContract::load(None, None);
    contract
        .add_training_data(&labeled_inputs(&[
            (0.0, 0.0, 0.0),
            (0.1, 1.0, 0.0),
            (10.0, 10.0, 2.0),
            (10.3, 11.0, 2.0),
        ]))
        .unwrap();
    contract.add_location(&inputs(&[(0.2, 0.4), (10.2, 10.4), (10.1, 10.9)])).unwrap();
    assert_eq!(frequencies_of(&contract), vec![1, 0, 2]);
}

#[test]
fn classify_with_a_class_of_one_observation() {
    let mut contract = LocationContract::load(None, None);
    contract
        .add_training_data(&labeled_inputs(&[(0.0, 0.0, 0.0), (0.1, 1.0, 0.0), (10.0, 10.0, 1.0)]))
        .unwrap();
    contract.add_location(&inputs(&[(0.2, 0.4), (10.0, 10.0)])).unwrap();
    assert_eq!(frequencies_of(&contract), vec![1, 1]);
}

#[test]
fn classify_separates_two_classes_with_spread() {
    let mut contract = LocationContract::load(None, None);
    contract
        .add_training_data(&labeled_inputs(&[
            (0.0, 0.0, 0.0),
            (0.1, 1.0, 0.0),
            (1.0, 0.2, 0.0),
            (10.0, 10.0, 1.0),
            (10.3, 11.0, 1.0),
            (11.0, 10.1, 1.0),
        ]))
        .unwrap();
    contract.add_location(&inputs(&[(0.5, 0.5), (10.5, 10.5)])).unwrap();
    let job = contract.classify().unwrap();
    assert_eq!(job.training.floors, vec![false; 4]);
    assert_eq!(predictions(&job), vec![1, 0, 0, 1]);
}

#[test]
fn classify_scores_the_class_of_the_points_higher_in_aggregate() {
    let training = labeled_inputs(&[
        (0.0, 0.0, 0.0),
        (0.1, 1.0, 0.0),
        (1.0, 0.2, 0.0),
        (10.0, 10.0, 1.0),
        (10.3, 11.0, 1.0),
        (11.0, 10.1, 1.0),
    ]);
    let mut near_first = LocationContract::load(None, None);
    near_first.add_training_data(&training).unwrap();
    near_first.add_location(&inputs(&[(0.2, 0.4), (0.6, 0.1), (0.9, 0.9)])).unwrap();
    let frequencies = frequencies_of(&near_first);
    assert_eq!(frequencies, vec![3, 0]);
    assert!(frequencies[0] > frequencies[1]);

    let mut near_second = LocationContract::load(None, None);
    near_second.add_training_data(&training).unwrap();
    near_second.add_location(&inputs(&[(10.2, 10.4), (10.9, 10.8)])).unwrap();
    let frequencies = frequencies_of(&near_second);
    assert_eq!(frequencies, vec![0, 2]);
    assert!(frequencies[1] > frequencies[0]);
}

#[test]
fn variances_of_zero_are_degenerate() {
    assert_eq!(check_variances(&vec![]), Ok(()));
    assert_eq!(check_variances(&bits_of(&[1.0, 0.5, 1e-300, f64::MAX])), Ok(()));
    assert_eq!(check_variances(&bits_of(&[1.0, 0.0])), Err(ContractError::NumericDegeneracy));
    assert_eq!(check_variances(&bits_of(&[-0.0])), Err(ContractError::NumericDegeneracy));
    assert_eq!(check_variances(&bits_of(&[2.0, -1.0])), Err(ContractError::NumericDegeneracy));
    assert_eq!(check_variances(&bits_of(&[f64::NAN])), Err(ContractError::NumericDegeneracy));
    assert_eq!(
        check_variances(&bits_of(&[f64::INFINITY, 1.0])),
        Err(ContractError::NumericDegeneracy)
    );
}

#[test]
fn a_model_fitted_without_a_floor_to_one_latitude_is_degenerate() {
    // The same four points fitted by the crate's own Gaussian: the variance
    // in latitude is zero in both classes.
    let set = LocationContract::train_classifier(&four_labelled_points()).unwrap();
    let features: Vec<f64> = set.inputs.iter().map(|x| *x as f64).collect();
    let indicators: Vec<f64> = set.targets.iter().map(|x| *x as f64).collect();
    let mut model = NaiveBayes::<Gaussian>::new();
    model.train(&Matrix::new(4, 2, features), &Matrix::new(4, 2, indicators)).unwrap();
    let sigma = model.distr().unwrap().sigma().data().clone();
    assert_eq!(check_variances(&bits_of(&sigma)), Err(ContractError::NumericDegeneracy));
}

#[test]
fn frequencies_are_column_sums() {
    assert_eq!(class_frequencies(&vec![1, 0, 0, 0, 1, 0, 1, 0, 0], 3), Ok(vec![2, 1, 0]));
    assert_eq!(class_frequencies(&vec![1, 1, 0, 0], 2), Ok(vec![1, 1]));
    assert_eq!(class_frequencies(&vec![], 2), Ok(vec![0, 0]));
    assert_eq!(class_frequencies(&vec![1, 0, 1], 1), Ok(vec![2]));
}

#[test]
fn frequencies_reject_what_is_no_indicator_matrix() {
    assert_eq!(class_frequencies(&vec![1, 0, 0], 2), Err(ContractError::MalformedInput));
    assert_eq!(class_frequencies(&vec![1, 0], 0), Err(ContractError::MalformedInput));
    assert_eq!(class_frequencies(&vec![], 0), Err(ContractError::MalformedInput));
    assert_eq!(class_frequencies(&vec![1, 2], 2), Err(ContractError::MalformedInput));
}

#[test]
fn report_names_each_class_in_ascending_order() {
    assert_eq!(render_frequencies(&vec![]), "");
    assert_eq!(render_frequencies(&vec![0]), "Class 0: 0. ");
    assert_eq!(render_frequencies(&vec![2, 0, 15]), "Class 0: 2. Class 1: 0. Class 2: 15. ");
    assert_eq!(
        render_frequencies(&vec![u64::MAX, 1_000_000]),
        "Class 0: 18446744073709551615. Class 1: 1000000. "
    );
    let many = vec![7u64; 12];
    let text = render_frequencies(&many);
    assert!(text.ends_with("Class 10: 7. Class 11: 7. "));
}
