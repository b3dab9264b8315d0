//! Uncontrolled fields: the host attaches the identity of a field once it
//! has materialised it, and whoever needs the field asks for the identity
//! at that moment. Nothing subscribes to it.

use crate::error::ReactiveError;
use vstd::prelude::*;

verus! {

/// The place where the host leaves the identity of a field.
pub struct FieldRef {
    target: Option<u64>,
}

impl FieldRef {
    /// The attached identity, if any.
    pub closed spec fn view(&self) -> Option<u64> {
        self.target
    }

    /// A reference to a field that is not attached yet.
    pub fn new() -> (field: FieldRef)
        ensures
            field@ is None,
    {
        FieldRef { target: None }
    }

    /// The host has materialised the field under `identity`.
    pub fn attach(&mut self, identity: u64)
        ensures
            final(self)@ == Some(identity),
    {
        self.target = Some(identity);
    }

    /// The host has taken the field away.
    pub fn detach(&mut self)
        ensures
            final(self)@ is None,
    {
        self.target = None;
    }

    /// Whether an identity is attached.
    pub fn is_attached(&self) -> (attached: bool)
        ensures
            attached == (self@ is Some),
    {
        self.target.is_some()
    }

    /// The identity of the field, or `MissingBinding` while none is attached.
    pub fn identity(&self) -> (r: Result<u64, ReactiveError>)
        ensures
            match r {
                Ok(identity) => self@ == Some(identity),
                Err(e) => e == ReactiveError::MissingBinding && self@ is None,
            },
    {
        match self.target {
            Some(identity) => Ok(identity),
            None => Err(ReactiveError::MissingBinding),
        }
    }
}

} // verus!
