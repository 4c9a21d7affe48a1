//! The chunk accumulator: a buffer that collects lines and is handed off
//! whole once it has grown to a threshold.

use crate::lines::is_terminated;
use vstd::prelude::*;

verus! {

/// The chunks that leave an accumulator with flush threshold `threshold`
/// that holds `pending` and is then given `lines`, one after another, and
/// closed. A chunk leaves as soon as the buffer has reached the threshold;
/// what is left at the end leaves too, unless nothing is left.
pub open spec fn pack(lines: Seq<Seq<u8>>, threshold: nat, pending: Seq<u8>) -> Seq<Seq<u8>>
    decreases lines.len(),
{
    if lines.len() == 0 {
        if pending.len() == 0 {
            Seq::empty()
        } else {
            seq![pending]
        }
    } else {
        let grown = pending + lines[0];
        if grown.len() >= threshold {
            seq![grown] + pack(lines.skip(1), threshold, Seq::empty())
        } else {
            pack(lines.skip(1), threshold, grown)
        }
    }
}

/// A growable buffer of lines that belongs to one worker and one file.
pub struct ChunkAccumulator {
    buffer: Vec<u8>,
    threshold: usize,
}

impl ChunkAccumulator {
    /// The bytes collected since the last hand-off.
    pub closed spec fn pending(&self) -> Seq<u8> {
        self.buffer@
    }

    /// The length at which the buffer is handed off.
    pub closed spec fn threshold(&self) -> nat {
        self.threshold as nat
    }

    /// An empty accumulator that hands its buffer off at `threshold` bytes.
    pub fn new(threshold: usize) -> (acc: Self)
        ensures
            acc.pending() == Seq::<u8>::empty(),
            acc.threshold() == threshold,
    {
        ChunkAccumulator { buffer: Vec::new(), threshold }
    }

    /// Number of bytes collected since the last hand-off.
    pub fn len(&self) -> (n: usize)
        ensures
            n == self.pending().len(),
    {
        self.buffer.len()
    }

    /// Appends `line`. Where that brings the buffer to the threshold, the
    /// buffer is returned for hand-off and a fresh one takes its place.
    pub fn append(&mut self, line: &[u8]) -> (full: Option<Vec<u8>>)
        requires
            old(self).pending().len() + line@.len() <= usize::MAX,
        ensures
            final(self).threshold() == old(self).threshold(),
            match full {
                Some(chunk) => {
                    &&& chunk@ == old(self).pending() + line@
                    &&& chunk@.len() >= old(self).threshold()
                    &&& final(self).pending() == Seq::<u8>::empty()
                },
                None => {
                    &&& final(self).pending() == old(self).pending() + line@
                    &&& final(self).pending().len() < old(self).threshold()
                },
            },
    {
        self.buffer.extend_from_slice(line);
        assert(self.buffer@ =~= old(self).buffer@ + line@);
        if self.buffer.len() >= self.threshold {
            let mut chunk: Vec<u8> = Vec::new();
            std::mem::swap(&mut self.buffer, &mut chunk);
            Some(chunk)
        } else {
            None
        }
    }

    /// Closes the accumulator: what is left in the buffer, if anything.
    pub fn finish(self) -> (rest: Option<Vec<u8>>)
        ensures
            match rest {
                Some(chunk) => chunk@ == self.pending() && chunk@.len() > 0,
                None => self.pending().len() == 0,
            },
    {
        if self.buffer.len() > 0 {
            Some(self.buffer)
        } else {
            None
        }
    }
}

/// The most that a chunk can hold where the threshold is `threshold` and no
/// line is longer than `longest`: a chunk leaves with the line that brings
/// it to the threshold, so it was short of the threshold before that line.
pub open spec fn chunk_bound(threshold: nat, longest: nat) -> nat {
    if threshold == 0 {
        longest
    } else {
        (threshold - 1 + longest) as nat
    }
}

/// Packing neither loses nor adds nor reorders a byte: the chunks, put one
/// after another, are what was pending followed by the lines.
pub proof fn lemma_pack_flatten(lines: Seq<Seq<u8>>, threshold: nat, pending: Seq<u8>)
    ensures
        pack(lines, threshold, pending).flatten() == pending + lines.flatten(),
    decreases lines.len(),
{
    if lines.len() == 0 {
        assert(lines.flatten() =~= Seq::<u8>::empty());
        assert(pending + Seq::<u8>::empty() =~= pending);
        if pending.len() > 0 {
            seq![pending].lemma_flatten_one_element();
        } else {
            assert(Seq::<Seq<u8>>::empty().flatten() =~= Seq::<u8>::empty());
        }
    } else {
        let grown = pending + lines[0];
        let others = lines.skip(1);
        assert(others =~= lines.drop_first());
        assert(lines.flatten() == lines[0] + others.flatten());
        if grown.len() >= threshold {
            lemma_pack_flatten(others, threshold, Seq::empty());
            vstd::seq_lib::lemma_flatten_concat(
                seq![grown],
                pack(others, threshold, Seq::empty()),
            );
            seq![grown].lemma_flatten_one_element();
            assert(grown + (Seq::<u8>::empty() + others.flatten()) =~= pending + (lines[0]
                + others.flatten()));
        } else {
            lemma_pack_flatten(others, threshold, grown);
            assert(grown + others.flatten() =~= pending + (lines[0] + others.flatten()));
        }
    }
}

/// The sizes of the chunks: each but the last has reached the threshold,
/// none is empty, and none exceeds `chunk_bound`.
pub proof fn lemma_pack_sizes(
    lines: Seq<Seq<u8>>,
    threshold: nat,
    longest: nat,
    pending: Seq<u8>,
)
    requires
        forall|i: int| 0 <= i < lines.len() ==> 0 < (#[trigger] lines[i]).len() <= longest,
        pending.len() == 0 || pending.len() < threshold,
    ensures
        forall|k: int|
            0 <= k < pack(lines, threshold, pending).len() ==> 0 < (#[trigger] pack(
                lines,
                threshold,
                pending,
            )[k]).len() <= chunk_bound(threshold, longest),
        forall|k: int|
            0 <= k < pack(lines, threshold, pending).len() - 1 ==> (#[trigger] pack(
                lines,
                threshold,
                pending,
            )[k]).len() >= threshold,
    decreases lines.len(),
{
    if lines.len() > 0 {
        let grown = pending + lines[0];
        let others = lines.skip(1);
        assert forall|i: int| 0 <= i < others.len() implies 0 < (#[trigger] others[i]).len()
            <= longest by {
            assert(others[i] == lines[i + 1]);
        }
        assert(0 < lines[0].len() <= longest);
        let chunks = pack(lines, threshold, pending);
        if grown.len() >= threshold {
            let later = pack(others, threshold, Seq::empty());
            lemma_pack_sizes(others, threshold, longest, Seq::empty());
            assert(chunks == seq![grown] + later);
            assert forall|k: int| 0 <= k < chunks.len() implies 0 < (#[trigger] chunks[k]).len()
                <= chunk_bound(threshold, longest) by {
                if k > 0 {
                    assert(chunks[k] == later[k - 1]);
                }
            }
            assert forall|k: int| 0 <= k < chunks.len() - 1 implies (#[trigger] chunks[k]).len()
                >= threshold by {
                if k > 0 {
                    assert(chunks[k] == later[k - 1]);
                }
            }
        } else {
            lemma_pack_sizes(others, threshold, longest, grown);
            assert(chunks == pack(others, threshold, grown));
        }
    } else if pending.len() > 0 {
        assert(pack(lines, threshold, pending) == seq![pending]);
    }
}

/// Where every line ends in a terminator, and what was pending did too, every
/// chunk ends in one.
pub proof fn lemma_pack_terminated(lines: Seq<Seq<u8>>, threshold: nat, pending: Seq<u8>)
    requires
        forall|i: int| 0 <= i < lines.len() ==> is_terminated(#[trigger] lines[i]),
        pending.len() == 0 || is_terminated(pending),
    ensures
        forall|k: int|
            0 <= k < pack(lines, threshold, pending).len() ==> is_terminated(
                #[trigger] pack(lines, threshold, pending)[k],
            ),
    decreases lines.len(),
{
    if lines.len() > 0 {
        let grown = pending + lines[0];
        let others = lines.skip(1);
        assert forall|i: int| 0 <= i < others.len() implies is_terminated(
            #[trigger] others[i],
        ) by {
            assert(others[i] == lines[i + 1]);
        }
        assert(is_terminated(lines[0]));
        assert(grown.last() == lines[0].last());
        let chunks = pack(lines, threshold, pending);
        if grown.len() >= threshold {
            let later = pack(others, threshold, Seq::empty());
            lemma_pack_terminated(others, threshold, Seq::empty());
            assert(chunks == seq![grown] + later);
            assert forall|k: int| 0 <= k < chunks.len() implies is_terminated(
                #[trigger] chunks[k],
            ) by {
                if k > 0 {
                    assert(chunks[k] == later[k - 1]);
                }
            }
        } else {
            lemma_pack_terminated(others, threshold, grown);
            assert(chunks == pack(others, threshold, grown));
        }
    } else if pending.len() > 0 {
        assert(pack(lines, threshold, pending) == seq![pending]);
    }
}

} // verus!
