use crate::codec::{decode, is_decoding_of};
use crate::decimal::Decimal;
use crate::error::ContractError;
use crate::ledger::Location;
use vstd::prelude::*;

verus! {

/// Whether `k` clusters can be sought among `n` observations: at least one
/// cluster, and no more clusters than observations. So nothing can be sought
/// in an empty ledger.
pub open spec fn can_cluster(n: int, k: int) -> bool {
    1 <= k <= n
}

/// The centre of a cluster in decimal units.
#[derive(Clone, Copy, Debug, PartialEq, Eq, Structural)]
pub struct Centre {
    pub latitude: Decimal,
    pub longitude: Decimal,
}

/// Sum of the latitudes, in fixed-point units.
pub open spec fn latitude_sum(locations: Seq<Location>) -> int
    decreases locations.len(),
{
    if locations.len() == 0 {
        0
    } else {
        latitude_sum(locations.drop_last()) + locations.last().latitude
    }
}

/// Sum of the longitudes, in fixed-point units.
pub open spec fn longitude_sum(locations: Seq<Location>) -> int
    decreases locations.len(),
{
    if locations.len() == 0 {
        0
    } else {
        longitude_sum(locations.drop_last()) + locations.last().longitude
    }
}

/// A validated request for clusters, by what is left to do.
#[derive(Debug)]
pub enum ClusterJob {
    /// As many clusters as observations: each observation is a cluster of
    /// its own. Nothing is left to do; these are the centres, decoded, in
    /// ledger order.
    EachPoint { centres: Vec<Centre> },
    /// One cluster of two observations or more. Its centre is their mean:
    /// each sum over `count`, then over a million.
    Mean { latitude_sum: i128, longitude_sum: i128, count: usize },
    /// From two clusters up to one less than there are observations: the
    /// observations to partition by k-means, in ledger order, and the
    /// number of clusters.
    Partition { points: Vec<Location>, clusters: usize },
}

impl ClusterJob {
    /// Whether this is the job of seeking `k` clusters among `locations`.
    pub open spec fn is_job_of(self, locations: Seq<Location>, k: int) -> bool {
        match self {
            ClusterJob::EachPoint { centres } => {
                &&& k == locations.len()
                &&& centres@.len() == locations.len()
                &&& forall|i: int|
                    0 <= i < locations.len() ==> is_decoding_of(
                        (#[trigger] centres@[i]).latitude,
                        locations[i].latitude as int,
                    ) && is_decoding_of(centres@[i].longitude, locations[i].longitude as int)
            },
            ClusterJob::Mean { latitude_sum: latitudes, longitude_sum: longitudes, count } => {
                &&& k == 1 < locations.len()
                &&& count == locations.len()
                &&& latitudes == latitude_sum(locations)
                &&& longitudes == longitude_sum(locations)
            },
            ClusterJob::Partition { points, clusters } => {
                &&& 2 <= k < locations.len()
                &&& clusters == k
                &&& points@ == locations
            },
        }
    }
}

/// The observations, each decoded.
fn decoded(locations: &Vec<Location>) -> (centres: Vec<Centre>)
    ensures
        centres@.len() == locations@.len(),
        forall|i: int|
            0 <= i < locations@.len() ==> is_decoding_of(
                (#[trigger] centres@[i]).latitude,
                locations@[i].latitude as int,
            ) && is_decoding_of(centres@[i].longitude, locations@[i].longitude as int),
{
    let mut centres: Vec<Centre> = Vec::new();
    let mut i: usize = 0;
    while i < locations.len()
        invariant
            i <= locations.len(),
            centres@.len() == i,
            forall|j: int|
                0 <= j < i ==> is_decoding_of(
                    (#[trigger] centres@[j]).latitude,
                    locations@[j].latitude as int,
                ) && is_decoding_of(centres@[j].longitude, locations@[j].longitude as int),
        decreases locations.len() - i,
    {
        let centre = Centre {
            latitude: decode(locations[i].latitude),
            longitude: decode(locations[i].longitude),
        };
        centres.push(centre);
        i = i + 1;
    }
    centres
}

/// The sums of the latitudes and of the longitudes.
fn sums(locations: &Vec<Location>) -> (r: (i128, i128))
    ensures
        r.0 == latitude_sum(locations@),
        r.1 == longitude_sum(locations@),
{
    let mut latitudes: i128 = 0;
    let mut longitudes: i128 = 0;
    let mut i: usize = 0;
    while i < locations.len()
        invariant
            i <= locations.len(),
            latitudes == latitude_sum(locations@.take(i as int)),
            longitudes == longitude_sum(locations@.take(i as int)),
            -0x8000_0000 * i <= latitudes <= 0x8000_0000 * i,
            -0x8000_0000 * i <= longitudes <= 0x8000_0000 * i,
        decreases locations.len() - i,
    {
        proof {
            assert(locations@.take(i + 1).drop_last() == locations@.take(i as int));
        }
        latitudes = latitudes + locations[i].latitude as i128;
        longitudes = longitudes + locations[i].longitude as i128;
        i = i + 1;
    }
    proof {
        assert(locations@.take(i as int) == locations@);
    }
    (latitudes, longitudes)
}

/// A copy of the observations.
fn copy_of(locations: &Vec<Location>) -> (points: Vec<Location>)
    ensures
        points@ == locations@,
{
    let mut points: Vec<Location> = Vec::new();
    let mut i: usize = 0;
    while i < locations.len()
        invariant
            i <= locations.len(),
            points@ == locations@.take(i as int),
        decreases locations.len() - i,
    {
        points.push(locations[i]);
        proof {
            assert(locations@.take(i + 1) == locations@.take(i as int).push(locations@[i as int]));
        }
        i = i + 1;
    }
    proof {
        assert(locations@.take(i as int) == locations@);
    }
    points
}

/// Checks a clustering request against the observations at hand and says
/// what is left to do.
///
/// Fails with `InvalidArgument` unless `1 <= k <= n` for `n` observations:
/// so it does for no clusters, for an empty ledger, and for more clusters
/// than observations.
pub fn plan(locations: &Vec<Location>, k: u32) -> (r: Result<ClusterJob, ContractError>)
    ensures
        match r {
            Ok(job) => can_cluster(locations@.len() as int, k as int) && job.is_job_of(
                locations@,
                k as int,
            ),
            Err(e) => !can_cluster(locations@.len() as int, k as int) && e
                == ContractError::InvalidArgument,
        },
{
    if k == 0 || k as u64 > locations.len() as u64 {
        return Err(ContractError::InvalidArgument);
    }
    if k as u64 == locations.len() as u64 {
        return Ok(ClusterJob::EachPoint { centres: decoded(locations) });
    }
    if k == 1 {
        let (latitudes, longitudes) = sums(locations);
        return Ok(
            ClusterJob::Mean {
                latitude_sum: latitudes,
                longitude_sum: longitudes,
                count: locations.len(),
            },
        );
    }
    Ok(ClusterJob::Partition { points: copy_of(locations), clusters: k as usize })
}

} // verus!
