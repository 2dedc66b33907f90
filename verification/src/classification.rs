use crate::decimal::{Decimal, Unpacked};
use crate::error::ContractError;
use crate::ledger::{Location, LocationWithClass};
use vstd::prelude::*;

verus! {

/// The largest class label among the observations; -1 where there are none.
pub open spec fn max_class(labeled: Seq<LocationWithClass>) -> int
    decreases labeled.len(),
{
    if labeled.len() == 0 {
        -1
    } else {
        let before = max_class(labeled.drop_last());
        if labeled.last().class > before {
            labeled.last().class as int
        } else {
            before
        }
    }
}

/// The number of classes: labels are taken to run from 0 to the largest one
/// present, so this is one more than the largest label.
pub open spec fn class_count(labeled: Seq<LocationWithClass>) -> int {
    max_class(labeled) + 1
}

/// Every label is below the class count, and the largest label is present.
pub proof fn lemma_class_count(labeled: Seq<LocationWithClass>)
    ensures
        0 <= class_count(labeled) <= u32::MAX + 1,
        labeled.len() > 0 ==> class_count(labeled) > 0,
        forall|i: int|
            0 <= i < labeled.len() ==> (#[trigger] labeled[i]).class < class_count(labeled),
        labeled.len() > 0 ==> exists|i: int|
            0 <= i < labeled.len() && (#[trigger] labeled[i]).class == class_count(labeled) - 1,
    decreases labeled.len(),
{
    if labeled.len() > 0 {
        let rest = labeled.drop_last();
        lemma_class_count(rest);
        assert forall|i: int| 0 <= i < labeled.len() implies (#[trigger] labeled[i]).class
            < class_count(labeled) by {
            if i < rest.len() {
                assert(labeled[i] == rest[i]);
            }
        }
        if labeled.last().class > max_class(rest) {
            assert(labeled[labeled.len() - 1].class == class_count(labeled) - 1);
        } else {
            let i = choose|i: int|
                0 <= i < rest.len() && (#[trigger] rest[i]).class == class_count(rest) - 1;
            assert(labeled[i] == rest[i]);
        }
    }
}

/// Whether two observations of class `c` differ in latitude.
pub open spec fn latitude_varies(labeled: Seq<LocationWithClass>, c: int) -> bool {
    exists|i: int, j: int|
        #![trigger labeled[i], labeled[j]]
        0 <= i < labeled.len() && 0 <= j < labeled.len() && labeled[i].class == c
            && labeled[j].class == c && labeled[i].latitude != labeled[j].latitude
}

/// Whether two observations of class `c` differ in longitude.
pub open spec fn longitude_varies(labeled: Seq<LocationWithClass>, c: int) -> bool {
    exists|i: int, j: int|
        #![trigger labeled[i], labeled[j]]
        0 <= i < labeled.len() && 0 <= j < labeled.len() && labeled[i].class == c
            && labeled[j].class == c && labeled[i].longitude != labeled[j].longitude
}

/// The variance, in squared fixed-point units, that a fit assumes for a class
/// in a coordinate where the observations give none to divide by: where the
/// sample variance is zero, because every observation of the class has the
/// same value there, or undefined, because the class has fewer than two
/// observations. A sample variance above zero is used as it is. One
/// squared unit is the resolution of the encoding. With the floor no class
/// divides by zero when a point is scored, and a class without observations,
/// whose prior is zero, is never the best.
pub const VARIANCE_FLOOR: u32 = 1;

/// Whether `VARIANCE_FLOOR` applies to class `c` in a coordinate
/// (0 for latitude, 1 for longitude): no two observations of the class
/// differ there.
pub open spec fn floor_applies(labeled: Seq<LocationWithClass>, c: int, coordinate: int) -> bool {
    if coordinate == 0 {
        !latitude_varies(labeled, c)
    } else {
        !longitude_varies(labeled, c)
    }
}

/// Where the floor applies, as a matrix of `classes` rows and two columns
/// (latitude, longitude), row after row.
pub open spec fn floor_flags(labeled: Seq<LocationWithClass>, classes: int) -> Seq<bool> {
    Seq::new((2 * classes) as nat, |i: int| floor_applies(labeled, i / 2, i % 2))
}

/// The largest class label of a non-empty set of observations.
fn largest_class(labeled: &Vec<LocationWithClass>) -> (m: u32)
    requires
        labeled.len() > 0,
    ensures
        m == max_class(labeled@),
{
    let mut m: u32 = labeled[0].class;
    let mut i: usize = 1;
    proof {
        assert(labeled@.take(1).drop_last().len() == 0);
        assert(max_class(labeled@.take(1).drop_last()) == -1);
    }
    while i < labeled.len()
        invariant
            1 <= i <= labeled.len(),
            m == max_class(labeled@.take(i as int)),
        decreases labeled.len() - i,
    {
        proof {
            assert(labeled@.take(i + 1).drop_last() == labeled@.take(i as int));
        }
        if labeled[i].class > m {
            m = labeled[i].class;
        }
        i = i + 1;
    }
    proof {
        assert(labeled@.take(i as int) == labeled@);
    }
    m
}

/// A vector that holds `value` `len` times.
fn filled<T: Copy>(len: u64, value: T) -> (v: Vec<T>)
    ensures
        v@.len() == len,
        forall|i: int| 0 <= i < len ==> v@[i] == value,
{
    let mut v: Vec<T> = Vec::new();
    let mut i: u64 = 0;
    while i < len
        invariant
            i <= len,
            v@.len() == i,
            forall|j: int| 0 <= j < i ==> v@[j] == value,
        decreases len - i,
    {
        v.push(value);
        i = i + 1;
    }
    v
}

/// What the pass below knows of the first members after `seen` observations:
/// `first[c]` is the index of an observation of class `c` among them, or the
/// number of observations where there is none among them.
spec fn first_members(labeled: Seq<LocationWithClass>, first: Seq<usize>, seen: int) -> bool {
    &&& forall|c: int|
        0 <= c < first.len() ==> (#[trigger] first[c]) <= labeled.len() && (first[c]
            < labeled.len() ==> first[c] < seen && labeled[first[c] as int].class == c)
    &&& forall|j: int|
        0 <= j < seen ==> first[(#[trigger] labeled[j]).class as int] < labeled.len()
}

/// What it knows of the latitudes: a class marked as differing has two
/// latitudes, and in a class not so marked each of the `seen` observations
/// has the latitude of the first member.
spec fn latitudes_tracked(
    labeled: Seq<LocationWithClass>,
    first: Seq<usize>,
    differs: Seq<bool>,
    seen: int,
) -> bool {
    &&& forall|c: int|
        0 <= c < differs.len() && #[trigger] differs[c] ==> latitude_varies(labeled, c)
    &&& forall|j: int|
        0 <= j < seen && !differs[(#[trigger] labeled[j]).class as int] ==> labeled[j].latitude
            == labeled[first[labeled[j].class as int] as int].latitude
}

/// The same of the longitudes.
spec fn longitudes_tracked(
    labeled: Seq<LocationWithClass>,
    first: Seq<usize>,
    differs: Seq<bool>,
    seen: int,
) -> bool {
    &&& forall|c: int|
        0 <= c < differs.len() && #[trigger] differs[c] ==> longitude_varies(labeled, c)
    &&& forall|j: int|
        0 <= j < seen && !differs[(#[trigger] labeled[j]).class as int] ==> labeled[j].longitude
            == labeled[first[labeled[j].class as int] as int].longitude
}

/// Where the floor applies. One pass over the observations keeps, for each
/// class, its first member and whether a later member differed from it in
/// latitude or in longitude.
fn floors_of(labeled: &Vec<LocationWithClass>, classes: u64) -> (floors: Vec<bool>)
    requires
        classes == class_count(labeled@),
    ensures
        floors@ == floor_flags(labeled@, classes as int),
{
    let n: usize = labeled.len();
    let mut first: Vec<usize> = filled(classes, n);
    let mut latitude_differs: Vec<bool> = filled(classes, false);
    let mut longitude_differs: Vec<bool> = filled(classes, false);
    proof {
        lemma_class_count(labeled@);
    }
    let mut i: usize = 0;
    while i < n
        invariant
            i <= n == labeled.len(),
            first@.len() == classes,
            latitude_differs@.len() == classes,
            longitude_differs@.len() == classes,
            forall|j: int| 0 <= j < n ==> (#[trigger] labeled@[j]).class < classes,
            first_members(labeled@, first@, i as int),
            latitudes_tracked(labeled@, first@, latitude_differs@, i as int),
            longitudes_tracked(labeled@, first@, longitude_differs@, i as int),
        decreases n - i,
    {
        let point = labeled[i];
        let c: usize = point.class as usize;
        let seen: usize = first[c];
        if seen == n {
            first.set(c, i);
        } else {
            let earlier = labeled[seen];
            if point.latitude != earlier.latitude {
                latitude_differs.set(c, true);
                proof {
                    assert(labeled@[i as int].class == c && labeled@[seen as int].class == c);
                    assert(latitude_varies(labeled@, c as int));
                }
            }
            if point.longitude != earlier.longitude {
                longitude_differs.set(c, true);
                proof {
                    assert(labeled@[i as int].class == c && labeled@[seen as int].class == c);
                    assert(longitude_varies(labeled@, c as int));
                }
            }
        }
        i = i + 1;
    }
    let mut floors: Vec<bool> = Vec::new();
    let mut c: u64 = 0;
    while c < classes
        invariant
            c <= classes == class_count(labeled@) <= u32::MAX + 1,
            n == labeled.len(),
            latitude_differs@.len() == classes,
            longitude_differs@.len() == classes,
            latitudes_tracked(labeled@, first@, latitude_differs@, n as int),
            longitudes_tracked(labeled@, first@, longitude_differs@, n as int),
            floors@ == floor_flags(labeled@, c as int),
        decreases classes - c,
    {
        let ghost before = floors@;
        floors.push(!latitude_differs[c as usize]);
        floors.push(!longitude_differs[c as usize]);
        proof {
            assert(latitude_differs@[c as int] == latitude_varies(labeled@, c as int));
            assert(longitude_differs@[c as int] == longitude_varies(labeled@, c as int));
            assert(floors@ =~= floor_flags(labeled@, c + 1)) by {
                assert forall|i: int| 0 <= i < 2 * (c + 1) implies floors@[i] == floor_applies(
                    labeled@,
                    i / 2,
                    i % 2,
                ) by {
                    if i < 2 * c {
                        assert(floors@[i] == before[i]);
                    }
                }
            }
        }
        c = c + 1;
    }
    floors
}

/// The coordinates of the observations as the rows of a matrix with two
/// columns, row after row: latitude, then longitude.
pub open spec fn coordinates(locations: Seq<Location>) -> Seq<i32>
    decreases locations.len(),
{
    if locations.len() == 0 {
        Seq::empty()
    } else {
        coordinates(locations.drop_last()).push(locations.last().latitude).push(
            locations.last().longitude,
        )
    }
}

/// Where the labelled observations lie, without their classes.
pub open spec fn positions(labeled: Seq<LocationWithClass>) -> Seq<Location> {
    labeled.map_values(|l: LocationWithClass| l.location())
}

/// The indicator row of a class: 1 in the column of the class, 0 elsewhere.
pub open spec fn one_hot_row(class: int, classes: int) -> Seq<u8> {
    Seq::new(
        classes as nat,
        |j: int|
            if j == class {
                1u8
            } else {
                0u8
            },
    )
}

/// The indicator rows of the observations as a matrix with `classes`
/// columns, row after row.
pub open spec fn one_hot_targets(labeled: Seq<LocationWithClass>, classes: int) -> Seq<u8>
    decreases labeled.len(),
{
    if labeled.len() == 0 {
        Seq::empty()
    } else {
        one_hot_targets(labeled.drop_last(), classes) + one_hot_row(
            labeled.last().class as int,
            classes,
        )
    }
}

/// Entry by entry: row `i` of the coordinate matrix holds the latitude and
/// the longitude of observation `i`.
pub proof fn lemma_coordinates_entries(locations: Seq<Location>)
    ensures
        coordinates(locations).len() == 2 * locations.len(),
        forall|i: int|
            0 <= i < locations.len() ==> coordinates(locations)[2 * i] == (
            #[trigger] locations[i]).latitude && coordinates(locations)[2 * i + 1]
                == locations[i].longitude,
    decreases locations.len(),
{
    if locations.len() > 0 {
        let rest = locations.drop_last();
        lemma_coordinates_entries(rest);
        assert forall|i: int| 0 <= i < locations.len() implies coordinates(locations)[2 * i] == (
        #[trigger] locations[i]).latitude && coordinates(locations)[2 * i + 1]
            == locations[i].longitude by {
            if i < rest.len() {
                assert(locations[i] == rest[i]);
            }
        }
    }
}

/// Entry by entry: in a matrix of `classes` columns, the entry in row `i`
/// and column `j` is 1 where observation `i` has class `j`, and 0 otherwise.
pub proof fn lemma_one_hot_entries(labeled: Seq<LocationWithClass>, classes: int)
    requires
        classes >= 0,
    ensures
        one_hot_targets(labeled, classes).len() == labeled.len() * classes,
        forall|i: int, j: int|
            0 <= i < labeled.len() && 0 <= j < classes ==> #[trigger] one_hot_targets(
                labeled,
                classes,
            )[i * classes + j] == (if labeled[i].class == j {
                1u8
            } else {
                0u8
            }),
    decreases labeled.len(),
{
    if labeled.len() > 0 {
        let rest = labeled.drop_last();
        let n = rest.len() as int;
        lemma_one_hot_entries(rest, classes);
        assert((n + 1) * classes == n * classes + classes) by (nonlinear_arith);
        assert forall|i: int, j: int|
            0 <= i < labeled.len() && 0 <= j < classes implies #[trigger] one_hot_targets(
            labeled,
            classes,
        )[i * classes + j] == (if labeled[i].class == j {
            1u8
        } else {
            0u8
        }) by {
            if i < n {
                assert(labeled[i] == rest[i]);
                assert(i * classes + j < n * classes) by (nonlinear_arith)
                    requires
                        0 <= i < n,
                        0 <= j < classes,
                ;
                assert(0 <= i * classes + j) by (nonlinear_arith)
                    requires
                        0 <= i,
                        0 <= j,
                        0 <= classes,
                ;
            } else {
                assert(i * classes + j == n * classes + j);
            }
        }
    } else {
        assert(labeled.len() * classes == 0) by (nonlinear_arith)
            requires
                labeled.len() == 0,
        ;
    }
}

/// The coordinate matrix of stored observations.
pub fn coordinates_of(locations: &Vec<Location>) -> (matrix: Vec<i32>)
    ensures
        matrix@ == coordinates(locations@),
{
    let mut matrix: Vec<i32> = Vec::new();
    let mut i: usize = 0;
    while i < locations.len()
        invariant
            i <= locations.len(),
            matrix@ == coordinates(locations@.take(i as int)),
        decreases locations.len() - i,
    {
        proof {
            assert(locations@.take(i + 1).drop_last() == locations@.take(i as int));
        }
        matrix.push(locations[i].latitude);
        matrix.push(locations[i].longitude);
        i = i + 1;
    }
    proof {
        assert(locations@.take(i as int) == locations@);
    }
    matrix
}

/// The coordinate matrix of labelled observations.
fn labeled_coordinates(labeled: &Vec<LocationWithClass>) -> (matrix: Vec<i32>)
    ensures
        matrix@ == coordinates(positions(labeled@)),
{
    let mut matrix: Vec<i32> = Vec::new();
    let mut i: usize = 0;
    while i < labeled.len()
        invariant
            i <= labeled.len(),
            matrix@ == coordinates(positions(labeled@).take(i as int)),
        decreases labeled.len() - i,
    {
        proof {
            assert(positions(labeled@).take(i + 1).drop_last() == positions(labeled@).take(
                i as int,
            ));
        }
        matrix.push(labeled[i].latitude);
        matrix.push(labeled[i].longitude);
        i = i + 1;
    }
    proof {
        assert(positions(labeled@).take(i as int) == positions(labeled@));
    }
    matrix
}

/// The indicator matrix of labelled observations, for `classes` columns.
fn indicator_matrix(labeled: &Vec<LocationWithClass>, classes: u64) -> (matrix: Vec<u8>)
    ensures
        matrix@ == one_hot_targets(labeled@, classes as int),
{
    let mut matrix: Vec<u8> = Vec::new();
    let mut i: usize = 0;
    while i < labeled.len()
        invariant
            i <= labeled.len(),
            matrix@ == one_hot_targets(labeled@.take(i as int), classes as int),
        decreases labeled.len() - i,
    {
        let class: u32 = labeled[i].class;
        let ghost row = one_hot_row(class as int, classes as int);
        let ghost before = matrix@;
        let mut j: u64 = 0;
        while j < classes
            invariant
                j <= classes,
                row == one_hot_row(class as int, classes as int),
                matrix@ == before + row.take(j as int),
            decreases classes - j,
        {
            let entry: u8 = if j == class as u64 {
                1
            } else {
                0
            };
            matrix.push(entry);
            proof {
                assert(row.take(j + 1) == row.take(j as int).push(row[j as int]));
            }
            j = j + 1;
        }
        proof {
            assert(row.take(j as int) == row);
            assert(labeled@.take(i + 1).drop_last() == labeled@.take(i as int));
        }
        i = i + 1;
    }
    proof {
        assert(labeled@.take(i as int) == labeled@);
    }
    matrix
}

/// What a Gaussian naive Bayes model is fitted to: one row per observation,
/// its coordinates in `inputs` and the indicator of its class in `targets`;
/// and one row per class in `floors`. All three matrices are stored row after
/// row.
#[derive(Debug)]
pub struct TrainingSet {
    /// Number of observations, the rows of `inputs` and `targets`.
    pub points: usize,
    /// Number of classes, the columns of `targets` and the rows of `floors`.
    pub classes: u64,
    /// `points` rows of two columns: latitude, longitude.
    pub inputs: Vec<i32>,
    /// `points` rows of `classes` columns, one 1 in each row.
    pub targets: Vec<u8>,
    /// `classes` rows of two columns: whether the variance of the class in
    /// latitude, and in longitude, is to be `VARIANCE_FLOOR`.
    pub floors: Vec<bool>,
}

impl TrainingSet {
    /// Whether this is the training set of the given observations.
    pub open spec fn describes(self, labeled: Seq<LocationWithClass>) -> bool {
        &&& self.points == labeled.len()
        &&& self.classes == class_count(labeled)
        &&& self.inputs@ == coordinates(positions(labeled))
        &&& self.targets@ == one_hot_targets(labeled, class_count(labeled))
        &&& self.floors@ == floor_flags(labeled, class_count(labeled))
    }
}

/// Why no model can be fitted to the observations, if so: there are none.
pub open spec fn training_failure(labeled: Seq<LocationWithClass>) -> Option<ContractError> {
    if labeled.len() == 0 {
        Some(ContractError::InvalidArgument)
    } else {
        None
    }
}

/// Lays out the training set of the observations.
///
/// Fails with `InvalidArgument` where there are no observations, and never
/// else: a class whose observations give no variance in a coordinate,
/// because they agree there, because there is one of them, or because there
/// is none, is marked in `floors` and fitted with `VARIANCE_FLOOR`.
pub fn train(labeled: &Vec<LocationWithClass>) -> (r: Result<TrainingSet, ContractError>)
    ensures
        match r {
            Ok(set) => training_failure(labeled@) is None && set.describes(labeled@),
            Err(e) => training_failure(labeled@) == Some(e),
        },
{
    if labeled.len() == 0 {
        return Err(ContractError::InvalidArgument);
    }
    let classes: u64 = largest_class(labeled) as u64 + 1;
    Ok(
        TrainingSet {
            points: labeled.len(),
            classes,
            inputs: labeled_coordinates(labeled),
            targets: indicator_matrix(labeled, classes),
            floors: floors_of(labeled, classes),
        },
    )
}

/// Whether a variance can be divided by: a finite number above zero.
pub open spec fn is_usable_variance(variance: Decimal) -> bool {
    variance.is_finite() && !variance.is_negative() && variance.significand() != 0
}

/// Checks the variances of a model before it is asked about a point.
///
/// Fails with `NumericDegeneracy` where some variance is zero, negative or
/// not finite.
pub fn check_variances(variances: &Vec<Decimal>) -> (r: Result<(), ContractError>)
    ensures
        r is Ok <==> forall|i: int|
            0 <= i < variances@.len() ==> is_usable_variance(#[trigger] variances@[i]),
        r is Err ==> r == Err::<(), ContractError>(ContractError::NumericDegeneracy),
{
    let mut i: usize = 0;
    while i < variances.len()
        invariant
            i <= variances.len(),
            forall|j: int| 0 <= j < i ==> is_usable_variance(#[trigger] variances@[j]),
        decreases variances.len() - i,
    {
        let usable = match variances[i].unpack() {
            Unpacked::Finite { negative, significand, .. } => !negative && significand != 0,
            _ => false,
        };
        if !usable {
            assert(!is_usable_variance(variances@[i as int]));
            return Err(ContractError::NumericDegeneracy);
        }
        i = i + 1;
    }
    Ok(())
}

} // verus!
