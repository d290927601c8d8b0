//! The ways in which the stability computation can fail.

use vstd::prelude::*;

verus! {

/// A failure of the stability computation. Any of them invalidates the whole run.
#[derive(Clone, Copy, Debug, PartialEq, Eq, Structural)]
pub enum StabilityError {
    /// A cluster without cells was compared against parent clusters.
    EmptyChildCluster,
    /// Two clusterings with the same number of clusters were related to each other.
    EqualClusterCounts,
    /// A parent was searched among no clusters at all.
    NoMatchingParent,
    /// A resolution of a branch is absent from the pool of clusterings.
    MissingResolutionInPool,
}

impl StabilityError {
    /// The text of the message that describes the failure.
    pub open spec fn message_text(self) -> Seq<char> {
        match self {
            StabilityError::EmptyChildCluster => "The child cluster is empty."@,
            StabilityError::EqualClusterCounts => "The number of clusters is identical."@,
            StabilityError::NoMatchingParent => "No parent clusters have been supplied."@,
            StabilityError::MissingResolutionInPool => "The resolution pool does not contain all branch resolutions."@,
        }
    }

    /// A message that describes the failure.
    pub fn message(&self) -> (message: String)
        ensures
            message@ == self.message_text(),
    {
        match self {
            StabilityError::EmptyChildCluster => "The child cluster is empty.".to_string(),
            StabilityError::EqualClusterCounts => "The number of clusters is identical.".to_string(),
            StabilityError::NoMatchingParent => "No parent clusters have been supplied.".to_string(),
            StabilityError::MissingResolutionInPool => "The resolution pool does not contain all branch resolutions.".to_string(),
        }
    }
}

} // verus!
