//! The effect of a transaction on one object, as shown to those who query it.

use vstd::prelude::*;

verus! {

/// Identifier of an object.
#[derive(Clone, Copy, Debug)]
pub struct ObjectID(pub [u8; 32]);

/// Address of an account or of an object.
#[derive(Clone, Copy, Debug)]
pub struct SuiAddress(pub [u8; 32]);

/// Version of an object.
#[derive(Clone, Copy, Debug, PartialEq, Eq, Structural)]
pub struct SequenceNumber(pub u64);

impl SequenceNumber {
    pub fn value(&self) -> (r: u64)
        ensures
            r == self.0,
    {
        self.0
    }
}

/// What a transaction did to the identifier of an object.
#[derive(Clone, Copy, Debug, PartialEq, Eq, Structural)]
pub enum IDOperation {
    /// The identifier was there before and is there after.
    Unchanged,
    Created,
    Deleted,
}

/// The change to one object as the transaction effects record it.
#[derive(Clone, Copy, Debug)]
pub struct NativeObjectChange {
    pub id: ObjectID,
    /// Version of the object before the transaction, if it existed.
    pub input_version: Option<SequenceNumber>,
    /// Version of the object after the transaction, if it exists.
    pub output_version: Option<SequenceNumber>,
    pub id_operation: IDOperation,
}

/// How to find one state of an object.
#[derive(Clone, Copy, Debug, PartialEq, Eq, Structural)]
pub enum ObjectLookupKey {
    /// The object at `version`, as far as it is known at the checkpoint.
    VersionAt { version: u64, checkpoint_viewed_at: u64 },
}

/// The change to one object, and the checkpoint at which it is looked at.
#[derive(Clone, Copy, Debug)]
pub struct ObjectChange {
    pub native: NativeObjectChange,
    /// The checkpoint sequence number this was viewed at.
    pub checkpoint_viewed_at: u64,
}

impl ObjectChange {
    /// The lookup for the object at `version`, if there is a version.
    pub open spec fn spec_lookup(&self, version: Option<SequenceNumber>) -> Option<
        (SuiAddress, ObjectLookupKey),
    > {
        match version {
            Some(version) => Some(
                (
                    SuiAddress(self.native.id.0),
                    ObjectLookupKey::VersionAt {
                        version: version.0,
                        checkpoint_viewed_at: self.checkpoint_viewed_at,
                    },
                ),
            ),
            None => None,
        }
    }

    /// The address of the object that has changed.
    pub fn address(&self) -> (r: SuiAddress)
        ensures
            r == SuiAddress(self.native.id.0),
    {
        SuiAddress(self.native.id.0)
    }

    /// Where to find the object as it was immediately before the
    /// transaction: nowhere if it did not exist, otherwise at its address, at
    /// its input version, as far as known at the checkpoint viewed at.
    pub fn input_state(&self) -> (r: Option<(SuiAddress, ObjectLookupKey)>)
        ensures
            r == self.spec_lookup(self.native.input_version),
    {
        match self.native.input_version {
            Some(version) => Some(
                (
                    self.address(),
                    ObjectLookupKey::VersionAt {
                        version: version.value(),
                        checkpoint_viewed_at: self.checkpoint_viewed_at,
                    },
                ),
            ),
            None => None,
        }
    }

    /// Where to find the object as it is immediately after the transaction:
    /// nowhere if it does not exist, otherwise at its address, at its output
    /// version, as far as known at the checkpoint viewed at.
    pub fn output_state(&self) -> (r: Option<(SuiAddress, ObjectLookupKey)>)
        ensures
            r == self.spec_lookup(self.native.output_version),
    {
        match self.native.output_version {
            Some(version) => Some(
                (
                    self.address(),
                    ObjectLookupKey::VersionAt {
                        version: version.value(),
                        checkpoint_viewed_at: self.checkpoint_viewed_at,
                    },
                ),
            ),
            None => None,
        }
    }

    /// Whether the ID was created in this transaction.
    pub fn id_created(&self) -> (r: Option<bool>)
        ensures
            r == Some(self.native.id_operation == IDOperation::Created),
    {
        Some(self.native.id_operation == IDOperation::Created)
    }

    /// Whether the ID was deleted in this transaction.
    pub fn id_deleted(&self) -> (r: Option<bool>)
        ensures
            r == Some(self.native.id_operation == IDOperation::Deleted),
    {
        Some(self.native.id_operation == IDOperation::Deleted)
    }
}

} // verus!
