use crate::classification::{
    coordinates, coordinates_of, train, training_failure, TrainingSet,
};
use crate::clustering::{can_cluster, plan, ClusterJob};
use crate::error::ContractError;
use crate::ledger::{
    append, encode_locations, encode_training_data, ledger_after, load, locations_encoding,
    training_data_encoding, Location, LocationInput, LocationWithClass, LocationWithClassInput,
};
use vstd::prelude::*;

verus! {

/// What a contract holds: the ledger of observations and the ledger of
/// labelled observations, each in the order of arrival.
pub struct ContractState {
    pub locations: Seq<Location>,
    pub training_data: Seq<LocationWithClass>,
}

/// Everything a classification needs: the training set of the labelled
/// ledger and the coordinate matrix of the observations to classify.
#[derive(Debug)]
pub struct ClassificationJob {
    pub training: TrainingSet,
    /// Number of observations to classify, the rows of `queries`.
    pub points: usize,
    /// `points` rows of two columns: latitude, longitude.
    pub queries: Vec<i32>,
}

/// The location contract. Its two ledgers only ever grow, and only through
/// the three `add_` calls; the analyses read them and leave them as they
/// are.
pub struct LocationContract {
    locations: Vec<Location>,
    training_data: Vec<LocationWithClass>,
}

impl View for LocationContract {
    type V = ContractState;

    closed spec fn view(&self) -> ContractState {
        ContractState { locations: self.locations@, training_data: self.training_data@ }
    }
}

impl LocationContract {
    /// The contract over what the state store holds under its two keys. A
    /// key that was never written stands for an empty ledger.
    pub fn load(
        locations: Option<Vec<Location>>,
        training_data: Option<Vec<LocationWithClass>>,
    ) -> (contract: LocationContract)
        ensures
            contract@.locations == match locations {
                Some(stored) => stored@,
                None => Seq::<Location>::empty(),
            },
            contract@.training_data == match training_data {
                Some(stored) => stored@,
                None => Seq::<LocationWithClass>::empty(),
            },
    {
        LocationContract { locations: load(locations), training_data: load(training_data) }
    }

    /// The ledger of observations, to be written back to the state store.
    pub fn locations(&self) -> (ledger: &Vec<Location>)
        ensures
            ledger@ == self@.locations,
    {
        &self.locations
    }

    /// The ledger of labelled observations, to be written back to the state
    /// store.
    pub fn training_data(&self) -> (ledger: &Vec<LocationWithClass>)
        ensures
            ledger@ == self@.training_data,
    {
        &self.training_data
    }

    /// Encodes the inputs and appends them to the ledger of observations, in
    /// their order. Where an input cannot be encoded the call fails with its
    /// error and the contract is left as it was.
    pub fn add_location(&mut self, inputs: &Vec<LocationInput>) -> (r: Result<(), ContractError>)
        ensures
            final(self)@.training_data == old(self)@.training_data,
            final(self)@.locations == ledger_after(
                old(self)@.locations,
                locations_encoding(inputs@),
            ),
            match r {
                Ok(_) => locations_encoding(inputs@) is Ok,
                Err(e) => locations_encoding(inputs@) == Err::<Seq<Location>, ContractError>(e),
            },
    {
        match encode_locations(inputs) {
            Err(e) => Err(e),
            Ok(stored) => {
                append(&mut self.locations, &stored);
                Ok(())
            },
        }
    }

    /// Appends one observation that is already in fixed point.
    pub fn add_encoded_location(&mut self, latitude: i32, longitude: i32)
        ensures
            final(self)@.training_data == old(self)@.training_data,
            final(self)@.locations == old(self)@.locations.push(Location { latitude, longitude }),
    {
        self.locations.push(Location { latitude, longitude });
    }

    /// Encodes the labelled inputs and appends them to the ledger of
    /// labelled observations, in their order. Where an input cannot be
    /// encoded the call fails with its error and the contract is left as it
    /// was.
    pub fn add_training_data(&mut self, inputs: &Vec<LocationWithClassInput>) -> (r: Result<
        (),
        ContractError,
    >)
        ensures
            final(self)@.locations == old(self)@.locations,
            final(self)@.training_data == ledger_after(
                old(self)@.training_data,
                training_data_encoding(inputs@),
            ),
            match r {
                Ok(_) => training_data_encoding(inputs@) is Ok,
                Err(e) => training_data_encoding(inputs@) == Err::<
                    Seq<LocationWithClass>,
                    ContractError,
                >(e),
            },
    {
        match encode_training_data(inputs) {
            Err(e) => Err(e),
            Ok(stored) => {
                append(&mut self.training_data, &stored);
                Ok(())
            },
        }
    }

    /// The clustering job over the ledger of observations.
    ///
    /// Fails with `InvalidArgument` unless `1 <= k <= n` for a ledger of `n`
    /// observations.
    pub fn cluster(&self, k: u32) -> (r: Result<ClusterJob, ContractError>)
        ensures
            match r {
                Ok(job) => can_cluster(self@.locations.len() as int, k as int) && job.is_job_of(
                    self@.locations,
                    k as int,
                ),
                Err(e) => !can_cluster(self@.locations.len() as int, k as int) && e
                    == ContractError::InvalidArgument,
            },
    {
        plan(&self.locations, k)
    }

    /// The training set of labelled inputs that are handed over with the
    /// call and stored nowhere.
    ///
    /// Fails with the error of the first input that cannot be encoded; else
    /// with `InvalidArgument` where there are no inputs.
    pub fn train_classifier(inputs: &Vec<LocationWithClassInput>) -> (r: Result<
        TrainingSet,
        ContractError,
    >)
        ensures
            match r {
                Ok(set) => training_data_encoding(inputs@) is Ok && training_failure(
                    training_data_encoding(inputs@)->Ok_0,
                ) is None && set.describes(training_data_encoding(inputs@)->Ok_0),
                Err(e) => match training_data_encoding(inputs@) {
                    Err(first) => e == first,
                    Ok(labeled) => training_failure(labeled) == Some(e),
                },
            },
    {
        match encode_training_data(inputs) {
            Err(e) => Err(e),
            Ok(labeled) => train(&labeled),
        }
    }

    /// The classification job of the contract: a model is fitted to the
    /// whole ledger of labelled observations and asked about the whole
    /// ledger of observations.
    ///
    /// Fails with `InvalidArgument` where the ledger of labelled
    /// observations is empty, and never else.
    pub fn classify(&self) -> (r: Result<ClassificationJob, ContractError>)
        ensures
            match r {
                Ok(job) => {
                    &&& training_failure(self@.training_data) is None
                    &&& job.training.describes(self@.training_data)
                    &&& job.points == self@.locations.len()
                    &&& job.queries@ == coordinates(self@.locations)
                },
                Err(e) => training_failure(self@.training_data) == Some(e),
            },
    {
        match train(&self.training_data) {
            Err(e) => Err(e),
            Ok(training) => Ok(
                ClassificationJob {
                    training,
                    points: self.locations.len(),
                    queries: coordinates_of(&self.locations),
                },
            ),
        }
    }

    /// The largest latitude in the ledger of observations; 0 for an empty
    /// ledger.
    pub fn compute_northernmost(&self) -> (latitude: i32)
        ensures
            self@.locations.len() == 0 ==> latitude == 0,
            forall|i: int|
                0 <= i < self@.locations.len() ==> (#[trigger] self@.locations[i]).latitude
                    <= latitude,
            self@.locations.len() > 0 ==> exists|i: int|
                0 <= i < self@.locations.len() && (#[trigger] self@.locations[i]).latitude
                    == latitude,
    {
        if self.locations.len() == 0 {
            return 0;
        }
        let mut latitude: i32 = self.locations[0].latitude;
        let mut i: usize = 1;
        while i < self.locations.len()
            invariant
                1 <= i <= self.locations.len(),
                forall|j: int| 0 <= j < i ==> (#[trigger] self.locations@[j]).latitude <= latitude,
                exists|j: int| 0 <= j < i && (#[trigger] self.locations@[j]).latitude == latitude,
            decreases self.locations.len() - i,
        {
            if self.locations[i].latitude > latitude {
                latitude = self.locations[i].latitude;
            }
            i = i + 1;
        }
        latitude
    }
}

} // verus!
