//! Versions of storage objects.

use vstd::prelude::*;
use vstd::string::*;

use crate::ids::TxId;

verus! {

/// The version of an object: the backend's token and the writing transaction.
#[verifier::ext_equal]
pub struct VersionView {
    /// The backend's token, empty when unset.
    pub token: Seq<char>,
    /// The writing transaction, empty when unknown.
    pub writer: Seq<u8>,
}

/// The version of an object.
#[derive(Debug, PartialEq, Eq)]
pub struct Version {
    /// The backend's token, empty when unset.
    pub token: String,
    /// The writing transaction, empty when unknown.
    pub writer: TxId,
}

impl View for Version {
    type V = VersionView;

    open spec fn view(&self) -> VersionView {
        VersionView { token: self.token@, writer: self.writer@ }
    }
}

impl Clone for Version {
    fn clone(&self) -> (r: Self)
        ensures
            r@ == self@,
    {
        Version { token: self.token.clone(), writer: self.writer.clone() }
    }
}

impl Version {
    /// Wraps a backend token; the writer is unknown.
    pub fn of_backend(token: String) -> (r: Self)
        ensures
            r@ == (VersionView { token: token@, writer: Seq::empty() }),
    {
        Version { token, writer: TxId::from_bytes(Vec::new()) }
    }

    /// Reports whether the backend's token is unset.
    pub fn is_unset(&self) -> (r: bool)
        ensures
            r == (self@.token.len() == 0),
    {
        self.token.as_str().is_empty()
    }

    /// Reports whether two versions name the same contents. The backend's token
    /// changes with every content write.
    pub fn equal_contents(&self, other: &Version) -> (r: bool)
        ensures
            r == (self@.token == other@.token),
    {
        self.token == other.token
    }
}

} // verus!
