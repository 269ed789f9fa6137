use vstd::prelude::*;

verus! {

/// Read access to a quorum certificate: the block it certifies and who signed it.
pub trait QCT<N, D, Sig, Id> {
    fn get_height(&self) -> N;

    fn get_hash(&self) -> D;

    fn get_signatures(&self) -> Vec<(Sig, Id)>;
}

/// Data necessary to create a voter.
pub struct VoterData<Id: Ord> {
    /// Local voter id.
    pub local_id: Id,
}

/// Data necessary to participate in a round.
pub struct RoundData<Id, Input, Output> {
    /// Local voter id
    pub local_id: Id,
    /// Incoming messages.
    pub incoming: Input,
    /// Outgoing messages.
    pub outgoing: Output,
}

} // verus!
