//! The coordination-object facade over the decoded object cache.
//!
//! Coordination objects change in place by content compare-and-swap. This facade
//! reads and writes raw object bodies; callers express freshness as a
//! requirement.

use vstd::prelude::*;
use vstd::string::*;

use std::sync::Arc;

use crate::cached_store::{CasResult, Observation, ObservationView};
use crate::error::StorageError;

verus! {

/// The result of reading an object: its body and its version.
#[derive(Debug)]
pub struct ObjectRead {
    /// The body.
    pub value: Arc<Vec<u8>>,
    /// The version.
    pub version: String,
}

/// The version of an observed state; empty for an absence.
pub open spec fn version_of(observed: ObservationView<Vec<u8>>) -> Seq<char> {
    match observed.revision {
        Some(revision) => revision,
        None => Seq::empty(),
    }
}

/// The rules by which raw object bodies are read and written.
#[derive(Debug)]
pub struct ObjectCache;

impl ObjectCache {
    /// Returns the version of an observed state; empty for an absence.
    fn version(observed: &Observation<Vec<u8>>) -> (r: String)
        ensures
            r@ == version_of(observed@),
    {
        match observed.revision() {
            Some(revision) => String::from_str(revision.serialize()),
            None => String::new(),
        }
    }

    /// Returns the body of a present observation, or `None` for an observed
    /// absence.
    pub fn peek(observed: Observation<Vec<u8>>) -> (r: Option<ObjectRead>)
        ensures
            match observed@.value {
                Some(value) => r matches Some(read) && *read.value == value && read.version@
                    == version_of(observed@),
                None => r is None,
            },
    {
        let version = Self::version(&observed);
        match observed.into_value() {
            Some(value) => Some(ObjectRead { value, version }),
            None => None,
        }
    }

    /// Returns the body of an observation. A missing object is an error.
    pub fn read(observed: Observation<Vec<u8>>) -> (r: Result<ObjectRead, StorageError>)
        ensures
            match observed@.value {
                Some(value) => r matches Ok(read) && *read.value == value && read.version@
                    == version_of(observed@),
                None => r matches Err(error) && error is NotFound,
            },
    {
        match Self::peek(observed) {
            Some(read) => Ok(read),
            None => Err(StorageError::NotFound),
        }
    }

    /// Returns the version that a conditional write installed. A refused write
    /// is an error.
    pub fn write_if(result: CasResult<Vec<u8>>) -> (r: Result<String, StorageError>)
        ensures
            match result {
                CasResult::Applied(receipt) => r matches Ok(version) && version@ == version_of(
                    receipt.state(),
                ),
                CasResult::Rejected => r matches Err(error) && error is Precondition,
            },
    {
        match result.into_observation() {
            Some(observed) => Ok(Self::version(&observed)),
            None => Err(StorageError::Precondition),
        }
    }
}

/// Law: the version of a present state is its revision.
pub proof fn law_version_is_the_revision(observed: ObservationView<Vec<u8>>)
    ensures
        observed.revision matches Some(revision) ==> version_of(observed) == revision,
        observed.revision is None ==> version_of(observed).len() == 0,
{
}

} // verus!
