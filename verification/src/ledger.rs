use crate::codec::{class_encoding, encode, encode_class, encoding};
use crate::decimal::Decimal;
use crate::error::ContractError;
use vstd::prelude::*;

verus! {

/// A stored observation: latitude and longitude in millionths of a degree.
#[derive(Clone, Copy, Debug, PartialEq, Eq, Structural)]
pub struct Location {
    pub latitude: i32,
    pub longitude: i32,
}

/// An observation as a caller submits it.
#[derive(Clone, Copy, Debug, PartialEq, Eq, Structural)]
pub struct LocationInput {
    pub latitude: Decimal,
    pub longitude: Decimal,
}

/// A stored observation with the class it belongs to.
#[derive(Clone, Copy, Debug, PartialEq, Eq, Structural)]
pub struct LocationWithClass {
    pub latitude: i32,
    pub longitude: i32,
    pub class: u32,
}

/// A labelled observation as a caller submits it. The class arrives as a
/// decimal too and is truncated toward zero.
#[derive(Clone, Copy, Debug, PartialEq, Eq, Structural)]
pub struct LocationWithClassInput {
    pub latitude: Decimal,
    pub longitude: Decimal,
    pub class: Decimal,
}

impl LocationWithClass {
    /// Where the observation lies, without its class.
    pub open spec fn location(self) -> Location {
        Location { latitude: self.latitude, longitude: self.longitude }
    }
}

impl LocationInput {
    /// The stored form of this input, or the error of the first coordinate
    /// (latitude before longitude) that cannot be encoded.
    pub open spec fn encoding(self) -> Result<Location, ContractError> {
        match encoding(self.latitude) {
            Err(e) => Err(e),
            Ok(latitude) => match encoding(self.longitude) {
                Err(e) => Err(e),
                Ok(longitude) => Ok(Location { latitude, longitude }),
            },
        }
    }

    pub fn encode(&self) -> (r: Result<Location, ContractError>)
        ensures
            r == self.encoding(),
    {
        match encode(self.latitude) {
            Err(e) => Err(e),
            Ok(latitude) => match encode(self.longitude) {
                Err(e) => Err(e),
                Ok(longitude) => Ok(Location { latitude, longitude }),
            },
        }
    }
}

impl LocationWithClassInput {
    /// The stored form of this input, or the error of the first field
    /// (latitude, longitude, class) that cannot be encoded.
    pub open spec fn encoding(self) -> Result<LocationWithClass, ContractError> {
        match encoding(self.latitude) {
            Err(e) => Err(e),
            Ok(latitude) => match encoding(self.longitude) {
                Err(e) => Err(e),
                Ok(longitude) => match class_encoding(self.class) {
                    Err(e) => Err(e),
                    Ok(class) => Ok(LocationWithClass { latitude, longitude, class }),
                },
            },
        }
    }

    pub fn encode(&self) -> (r: Result<LocationWithClass, ContractError>)
        ensures
            r == self.encoding(),
    {
        match encode(self.latitude) {
            Err(e) => Err(e),
            Ok(latitude) => match encode(self.longitude) {
                Err(e) => Err(e),
                Ok(longitude) => match encode_class(self.class) {
                    Err(e) => Err(e),
                    Ok(class) => Ok(LocationWithClass { latitude, longitude, class }),
                },
            },
        }
    }
}

/// The stored form of a batch of inputs, in input order; or, where some
/// input cannot be encoded, the error of the first that cannot.
pub open spec fn locations_encoding(inputs: Seq<LocationInput>) -> Result<
    Seq<Location>,
    ContractError,
>
    decreases inputs.len(),
{
    if inputs.len() == 0 {
        Ok(Seq::empty())
    } else {
        match locations_encoding(inputs.drop_last()) {
            Err(e) => Err(e),
            Ok(stored) => match inputs.last().encoding() {
                Err(e) => Err(e),
                Ok(location) => Ok(stored.push(location)),
            },
        }
    }
}

/// The same for labelled inputs.
pub open spec fn training_data_encoding(inputs: Seq<LocationWithClassInput>) -> Result<
    Seq<LocationWithClass>,
    ContractError,
>
    decreases inputs.len(),
{
    if inputs.len() == 0 {
        Ok(Seq::empty())
    } else {
        match training_data_encoding(inputs.drop_last()) {
            Err(e) => Err(e),
            Ok(stored) => match inputs.last().encoding() {
                Err(e) => Err(e),
                Ok(location) => Ok(stored.push(location)),
            },
        }
    }
}

/// Encodes a batch of inputs. All of them are encoded or none is.
pub fn encode_locations(inputs: &Vec<LocationInput>) -> (r: Result<Vec<Location>, ContractError>)
    ensures
        match r {
            Ok(stored) => locations_encoding(inputs@) == Ok::<Seq<Location>, ContractError>(
                stored@,
            ),
            Err(e) => locations_encoding(inputs@) == Err::<Seq<Location>, ContractError>(e),
        },
{
    let mut stored: Vec<Location> = Vec::new();
    let mut i: usize = 0;
    while i < inputs.len()
        invariant
            i <= inputs.len(),
            locations_encoding(inputs@.take(i as int)) == Ok::<Seq<Location>, ContractError>(
                stored@,
            ),
        decreases inputs.len() - i,
    {
        proof {
            assert(inputs@.take(i + 1).drop_last() == inputs@.take(i as int));
        }
        match inputs[i].encode() {
            Err(e) => {
                proof {
                    lemma_encoding_failure_persists(inputs@, i + 1);
                }
                return Err(e);
            },
            Ok(location) => {
                stored.push(location);
            },
        }
        i = i + 1;
    }
    proof {
        assert(inputs@.take(i as int) == inputs@);
    }
    Ok(stored)
}

/// Encodes a batch of labelled inputs. All of them are encoded or none is.
pub fn encode_training_data(inputs: &Vec<LocationWithClassInput>) -> (r: Result<
    Vec<LocationWithClass>,
    ContractError,
>)
    ensures
        match r {
            Ok(stored) => training_data_encoding(inputs@) == Ok::<
                Seq<LocationWithClass>,
                ContractError,
            >(stored@),
            Err(e) => training_data_encoding(inputs@) == Err::<
                Seq<LocationWithClass>,
                ContractError,
            >(e),
        },
{
    let mut stored: Vec<LocationWithClass> = Vec::new();
    let mut i: usize = 0;
    while i < inputs.len()
        invariant
            i <= inputs.len(),
            training_data_encoding(inputs@.take(i as int)) == Ok::<
                Seq<LocationWithClass>,
                ContractError,
            >(stored@),
        decreases inputs.len() - i,
    {
        proof {
            assert(inputs@.take(i + 1).drop_last() == inputs@.take(i as int));
        }
        match inputs[i].encode() {
            Err(e) => {
                proof {
                    lemma_training_failure_persists(inputs@, i + 1);
                }
                return Err(e);
            },
            Ok(location) => {
                stored.push(location);
            },
        }
        i = i + 1;
    }
    proof {
        assert(inputs@.take(i as int) == inputs@);
    }
    Ok(stored)
}

/// A batch fails with the error of its shortest failing prefix.
proof fn lemma_encoding_failure_persists(inputs: Seq<LocationInput>, n: int)
    requires
        0 <= n <= inputs.len(),
        locations_encoding(inputs.take(n)) is Err,
    ensures
        locations_encoding(inputs) == locations_encoding(inputs.take(n)),
    decreases inputs.len(),
{
    if n < inputs.len() {
        assert(inputs.drop_last().take(n) == inputs.take(n));
        lemma_encoding_failure_persists(inputs.drop_last(), n);
    } else {
        assert(inputs.take(n) == inputs);
    }
}

proof fn lemma_training_failure_persists(inputs: Seq<LocationWithClassInput>, n: int)
    requires
        0 <= n <= inputs.len(),
        training_data_encoding(inputs.take(n)) is Err,
    ensures
        training_data_encoding(inputs) == training_data_encoding(inputs.take(n)),
    decreases inputs.len(),
{
    if n < inputs.len() {
        assert(inputs.drop_last().take(n) == inputs.take(n));
        lemma_training_failure_persists(inputs.drop_last(), n);
    } else {
        assert(inputs.take(n) == inputs);
    }
}

/// The ledger that a stored value stands for: a key that was never written
/// holds the empty ledger.
pub fn load<T>(stored: Option<Vec<T>>) -> (ledger: Vec<T>)
    ensures
        ledger@ == match stored {
            Some(items) => items@,
            None => Seq::<T>::empty(),
        },
{
    match stored {
        Some(items) => items,
        None => Vec::new(),
    }
}

/// Appends `new_items` to the ledger, in their order. Nothing that the ledger
/// held is changed, moved or dropped.
pub fn append<T: Copy>(ledger: &mut Vec<T>, new_items: &Vec<T>)
    ensures
        final(ledger)@ == old(ledger)@ + new_items@,
{
    let mut i: usize = 0;
    while i < new_items.len()
        invariant
            i <= new_items.len(),
            ledger@ == old(ledger)@ + new_items@.take(i as int),
        decreases new_items.len() - i,
    {
        ledger.push(new_items[i]);
        proof {
            assert(new_items@.take(i + 1) == new_items@.take(i as int).push(new_items@[i as int]));
        }
        i = i + 1;
    }
    proof {
        assert(new_items@.take(i as int) == new_items@);
    }
}

/// The ledger after a batch arrived: the batch is appended where all of it
/// could be encoded, and the ledger stays as it was where it could not.
pub open spec fn ledger_after<T>(ledger: Seq<T>, batch: Result<Seq<T>, ContractError>) -> Seq<T> {
    match batch {
        Ok(items) => ledger + items,
        Err(_) => ledger,
    }
}

/// Two batches in a row encode as their concatenation does: to the
/// concatenation of their stored forms, or to the first error in order.
pub proof fn lemma_locations_encoding_concat(a: Seq<LocationInput>, b: Seq<LocationInput>)
    ensures
        locations_encoding(a + b) == match locations_encoding(a) {
            Err(e) => Err::<Seq<Location>, ContractError>(e),
            Ok(first) => match locations_encoding(b) {
                Err(e) => Err(e),
                Ok(second) => Ok(first + second),
            },
        },
    decreases b.len(),
{
    if b.len() == 0 {
        assert(a + b == a);
        if let Ok(first) = locations_encoding(a) {
            assert(first + Seq::<Location>::empty() == first);
        }
    } else {
        assert((a + b).drop_last() == a + b.drop_last());
        assert((a + b).last() == b.last());
        lemma_locations_encoding_concat(a, b.drop_last());
        if let Ok(first) = locations_encoding(a) {
            if let Ok(second) = locations_encoding(b.drop_last()) {
                if let Ok(location) = b.last().encoding() {
                    assert((first + second).push(location) == first + second.push(location));
                }
            }
        }
    }
}

/// The same for labelled inputs.
pub proof fn lemma_training_data_encoding_concat(
    a: Seq<LocationWithClassInput>,
    b: Seq<LocationWithClassInput>,
)
    ensures
        training_data_encoding(a + b) == match training_data_encoding(a) {
            Err(e) => Err::<Seq<LocationWithClass>, ContractError>(e),
            Ok(first) => match training_data_encoding(b) {
                Err(e) => Err(e),
                Ok(second) => Ok(first + second),
            },
        },
    decreases b.len(),
{
    if b.len() == 0 {
        assert(a + b == a);
        if let Ok(first) = training_data_encoding(a) {
            assert(first + Seq::<LocationWithClass>::empty() == first);
        }
    } else {
        assert((a + b).drop_last() == a + b.drop_last());
        assert((a + b).last() == b.last());
        lemma_training_data_encoding_concat(a, b.drop_last());
        if let Ok(first) = training_data_encoding(a) {
            if let Ok(second) = training_data_encoding(b.drop_last()) {
                if let Ok(location) = b.last().encoding() {
                    assert((first + second).push(location) == first + second.push(location));
                }
            }
        }
    }
}

/// How inputs are batched into calls does not matter: where the inputs can
/// be encoded, adding `a` and then `b` leaves the ledger that adding `a + b`
/// at once leaves, with every item in its place.
pub proof fn lemma_batching_is_immaterial(
    ledger: Seq<Location>,
    a: Seq<LocationInput>,
    b: Seq<LocationInput>,
)
    requires
        locations_encoding(a + b) is Ok,
    ensures
        locations_encoding(a) is Ok,
        locations_encoding(b) is Ok,
        ledger_after(ledger_after(ledger, locations_encoding(a)), locations_encoding(b))
            == ledger_after(ledger, locations_encoding(a + b)),
        ledger_after(ledger, locations_encoding(a + b)) == ledger + locations_encoding(a)->Ok_0
            + locations_encoding(b)->Ok_0,
{
    lemma_locations_encoding_concat(a, b);
    let first = locations_encoding(a)->Ok_0;
    let second = locations_encoding(b)->Ok_0;
    assert((ledger + first) + second == ledger + (first + second));
}

/// The same for the ledger of labelled observations.
pub proof fn lemma_training_batching_is_immaterial(
    ledger: Seq<LocationWithClass>,
    a: Seq<LocationWithClassInput>,
    b: Seq<LocationWithClassInput>,
)
    requires
        training_data_encoding(a + b) is Ok,
    ensures
        training_data_encoding(a) is Ok,
        training_data_encoding(b) is Ok,
        ledger_after(ledger_after(ledger, training_data_encoding(a)), training_data_encoding(b))
            == ledger_after(ledger, training_data_encoding(a + b)),
        ledger_after(ledger, training_data_encoding(a + b)) == ledger + training_data_encoding(
            a,
        )->Ok_0 + training_data_encoding(b)->Ok_0,
{
    lemma_training_data_encoding_concat(a, b);
    let first = training_data_encoding(a)->Ok_0;
    let second = training_data_encoding(b)->Ok_0;
    assert((ledger + first) + second == ledger + (first + second));
}

} // verus!
