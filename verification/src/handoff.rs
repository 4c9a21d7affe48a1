//! The sending end of the bounded hand-off channel.

use crossbeam_channel::Sender;
use vstd::prelude::*;

verus! {

/// The channel capacity that the command-line tool works with where none is
/// given: the number of chunks that can wait for the writer.
pub const DEFAULT_CHANNEL_BOUND: usize = 1000;

/// `crossbeam_channel::Sender`, the sending end of a channel. Nothing is
/// known of what is inside; a value of it is only carried to `send`.
#[verifier::external_type_specification]
#[verifier::external_body]
#[verifier::reject_recursive_types(T)]
pub struct ExSender<T>(Sender<T>);

/// Calls `crossbeam_channel::Sender::send`, which blocks while the channel is
/// full and gives the message back in an error once the channel is
/// disconnected. The result tells whether the channel took the chunk; which
/// of the two happens rests with the receiving side, so nothing is claimed.
#[verifier::external_body]
fn channel_send(sender: &Sender<Vec<u8>>, chunk: Vec<u8>) -> (accepted: bool) {
    sender.send(chunk).is_ok()
}

/// How many of `verdicts` say that the channel took the chunk.
pub open spec fn taken(verdicts: Seq<bool>) -> nat
    decreases verdicts.len(),
{
    if verdicts.len() == 0 {
        0
    } else {
        taken(verdicts.drop_last()) + if verdicts.last() {
            1nat
        } else {
            0nat
        }
    }
}

/// One more verdict counts for one where it says that the chunk was taken.
pub proof fn lemma_taken_push(verdicts: Seq<bool>, accepted: bool)
    ensures
        taken(verdicts.push(accepted)) == taken(verdicts) + if accepted {
            1nat
        } else {
            0nat
        },
        taken(verdicts) <= verdicts.len(),
    decreases verdicts.len(),
{
    assert(verdicts.push(accepted).drop_last() =~= verdicts);
    if verdicts.len() > 0 {
        lemma_taken_push(verdicts.drop_last(), verdicts.last());
        assert(verdicts.drop_last().push(verdicts.last()) =~= verdicts);
    }
}

/// A worker's handle on the channel. It records, for the proofs, every chunk
/// that went through it and what became of it.
pub struct ChunkSender {
    sender: Sender<Vec<u8>>,
    offered: Ghost<Seq<Seq<u8>>>,
    verdicts: Ghost<Seq<bool>>,
}

impl ChunkSender {
    /// Every chunk handed to the channel through this handle, in order.
    pub closed spec fn offered(&self) -> Seq<Seq<u8>> {
        self.offered@
    }

    /// What the channel did with each chunk of `offered`, in the same order:
    /// `true` where it took the chunk, `false` where it refused it.
    pub closed spec fn verdicts(&self) -> Seq<bool> {
        self.verdicts@
    }

    /// Wraps the sending end of a channel; nothing has gone through it yet.
    pub fn new(sender: Sender<Vec<u8>>) -> (out: Self)
        ensures
            out.offered() == Seq::<Seq<u8>>::empty(),
            out.verdicts() == Seq::<bool>::empty(),
    {
        ChunkSender { sender, offered: Ghost(Seq::empty()), verdicts: Ghost(Seq::empty()) }
    }

    /// Hands `chunk` over to the channel, waiting while the channel is full.
    /// A chunk that a disconnected channel refuses is dropped.
    pub fn send(&mut self, chunk: Vec<u8>) -> (accepted: bool)
        ensures
            final(self).offered() == old(self).offered().push(chunk@),
            final(self).verdicts() == old(self).verdicts().push(accepted),
    {
        let ghost bytes = chunk@;
        let accepted = channel_send(&self.sender, chunk);
        proof {
            self.offered@ = self.offered@.push(bytes);
            self.verdicts@ = self.verdicts@.push(accepted);
        }
        accepted
    }
}

} // verus!
