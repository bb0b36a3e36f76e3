//! A stand-in for the distribution of state witnesses: a queue that keeps
//! the requests it is sent, for a test to take them out again.

use crate::hash::StateRoot;
use crate::shard_uid::ShardUId;
use std::collections::VecDeque;
use vstd::prelude::*;

verus! {

/// The request to distribute the state witness of one chunk.
#[derive(Clone, Debug, PartialEq, Eq)]
pub struct DistributeStateWitnessRequest {
    /// The shard whose chunk the witness is for.
    pub shard: ShardUId,
    /// The root of the shard's trie before the chunk is applied.
    pub state_root: StateRoot,
    /// The encoded witness.
    pub state_witness: Vec<u8>,
}

/// What can be asked to distribute a state witness.
pub trait StateWitnessSender {
    /// Hands a request over for distribution.
    fn send(&mut self, msg: DistributeStateWitnessRequest);
}

/// A sender that distributes nothing and keeps every request in the order
/// in which it was sent.
pub struct MockStateWitnessAdapter {
    distribution_request: VecDeque<DistributeStateWitnessRequest>,
}

impl View for MockStateWitnessAdapter {
    type V = Seq<DistributeStateWitnessRequest>;

    closed spec fn view(&self) -> Seq<DistributeStateWitnessRequest> {
        self.distribution_request@
    }
}

impl MockStateWitnessAdapter {
    /// The adapter that holds no request.
    pub fn new() -> (adapter: MockStateWitnessAdapter)
        ensures
            adapter@ == Seq::<DistributeStateWitnessRequest>::empty(),
    {
        MockStateWitnessAdapter { distribution_request: VecDeque::new() }
    }

    /// How many requests the adapter holds.
    pub fn len(&self) -> (n: usize)
        ensures
            n == self@.len(),
    {
        self.distribution_request.len()
    }

    /// Takes out the request that has waited longest, if there is one.
    pub fn pop_distribution_request(&mut self) -> (r: Option<DistributeStateWitnessRequest>)
        ensures
            old(self)@.len() == 0 ==> r is None && final(self)@ == old(self)@,
            old(self)@.len() > 0 ==> r == Some(old(self)@[0]) && final(self)@ == old(self)@.subrange(
                1,
                old(self)@.len() as int,
            ),
    {
        self.distribution_request.pop_front()
    }
}

impl StateWitnessSender for MockStateWitnessAdapter {
    /// Keeps the request behind those that were sent before.
    fn send(&mut self, msg: DistributeStateWitnessRequest)
        ensures
            final(self)@ == old(self)@.push(msg),
    {
        self.distribution_request.push_back(msg);
    }
}

impl Default for MockStateWitnessAdapter {
    fn default() -> (adapter: MockStateWitnessAdapter)
        ensures
            adapter@ == Seq::<DistributeStateWitnessRequest>::empty(),
    {
        MockStateWitnessAdapter::new()
    }
}

/// Requests leave the adapter in the order in which they were sent: after
/// requests were sent to an empty adapter, the first one taken out is the
/// first one sent.
pub proof fn lemma_first_in_first_out(
    queue: Seq<DistributeStateWitnessRequest>,
    msg: DistributeStateWitnessRequest,
)
    ensures
        queue.len() > 0 ==> queue.push(msg)[0] == queue[0],
        queue.len() == 0 ==> queue.push(msg)[0] == msg,
        queue.len() > 0 ==> queue.push(msg).subrange(1, queue.len() as int + 1) == queue.subrange(
            1,
            queue.len() as int,
        ).push(msg),
{
    if queue.len() > 0 {
        assert(queue.push(msg).subrange(1, queue.len() as int + 1) =~= queue.subrange(
            1,
            queue.len() as int,
        ).push(msg));
    }
}

} // verus!
