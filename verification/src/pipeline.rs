//! One worker's pass over one file: decode, filter, accumulate, hand off.

use crate::accumulator::{pack, ChunkAccumulator};
use crate::decoder::{decode, gzip_payload, FilterError};
use crate::handoff::{lemma_taken_push, taken, ChunkSender};
use crate::line_filter::line_matches;
use crate::lines::{first_line_len, lemma_first_line_len, line_end, split_lines};
use vstd::prelude::*;
use vstd::slice::slice_subrange;

verus! {

/// The flush threshold that the command-line tool works with: one mebibyte.
pub const DEFAULT_FLUSH_THRESHOLD: usize = 1048576;

/// The filter for `needle`, as a predicate on lines.
pub open spec fn matcher(needle: Seq<u8>) -> spec_fn(Seq<u8>) -> bool {
    |line: Seq<u8>| line_matches(line, needle)
}

/// The lines of `data` that pass the filter for `needle`, in their order.
pub open spec fn matching_lines(data: Seq<u8>, needle: Seq<u8>) -> Seq<Seq<u8>> {
    split_lines(data).filter(matcher(needle))
}

/// The chunks that a file with content `data` gives rise to.
pub open spec fn file_chunks(data: Seq<u8>, needle: Seq<u8>, threshold: nat) -> Seq<Seq<u8>> {
    pack(matching_lines(data, needle), threshold, Seq::empty())
}

/// What a worker has offered to the channel once it has been through the
/// file `compressed`, having offered `before` until then: the chunks of the
/// file's content come after `before`, and a file that cannot be decoded
/// adds nothing.
pub open spec fn offered_after(
    before: Seq<Seq<u8>>,
    compressed: Seq<u8>,
    needle: Seq<u8>,
    threshold: nat,
) -> Seq<Seq<u8>> {
    match gzip_payload(compressed) {
        Some(data) => before + file_chunks(data, needle, threshold),
        None => before,
    }
}

/// How the hand-off of one file's chunks went.
#[derive(Clone, Copy, Debug, PartialEq, Eq)]
pub struct FilterReport {
    /// Chunks that the channel took.
    pub delivered: usize,
    /// Chunks that the channel refused, and that are lost.
    pub dropped: usize,
}

impl FilterReport {
    /// The report of a hand-off in which nothing has been sent yet.
    pub fn new() -> (report: Self)
        ensures
            report.delivered == 0,
            report.dropped == 0,
    {
        FilterReport { delivered: 0, dropped: 0 }
    }

    /// Counts one more chunk: as delivered where the channel took it, as
    /// dropped where it did not.
    pub fn record(&mut self, accepted: bool)
        requires
            old(self).delivered + old(self).dropped < usize::MAX,
        ensures
            final(self).delivered == old(self).delivered + (if accepted {
                1int
            } else {
                0int
            }),
            final(self).dropped == old(self).dropped + (if accepted {
                0int
            } else {
                1int
            }),
    {
        if accepted {
            self.delivered += 1;
        } else {
            self.dropped += 1;
        }
    }
}

/// `report` sums up the verdicts that have come in since `before`: there are
/// `chunks` new ones after those of `before`, `report.delivered` of them say
/// that the chunk was taken, and `report.dropped` say that it was not.
pub open spec fn reported(
    report: FilterReport,
    before: Seq<bool>,
    after: Seq<bool>,
    chunks: nat,
) -> bool {
    &&& after.len() == before.len() + chunks
    &&& after.take(before.len() as int) == before
    &&& report.delivered == taken(after.skip(before.len() as int))
    &&& report.dropped == chunks - taken(after.skip(before.len() as int))
}

/// The matching lines of non-empty data: its first line, if that matches,
/// and then those of what follows it.
proof fn lemma_matching_lines_unfold(rest: Seq<u8>, needle: Seq<u8>)
    requires
        rest.len() > 0,
    ensures
        ({
            let n = first_line_len(rest) as int;
            matching_lines(rest, needle) == if line_matches(rest.take(n), needle) {
                seq![rest.take(n)] + matching_lines(rest.skip(n), needle)
            } else {
                matching_lines(rest.skip(n), needle)
            }
        }),
{
    let n = first_line_len(rest) as int;
    let head = seq![rest.take(n)];
    let tail = split_lines(rest.skip(n));
    assert(split_lines(rest) == head + tail);
    Seq::filter_distributes_over_add(head, tail, matcher(needle));
    assert(head.filter(matcher(needle)) =~= if line_matches(rest.take(n), needle) {
        head
    } else {
        Seq::empty()
    }) by {
        reveal_with_fuel(Seq::filter, 2);
        assert(head.drop_last() =~= Seq::<Seq<u8>>::empty());
    }
    if !line_matches(rest.take(n), needle) {
        assert(Seq::<Seq<u8>>::empty() + tail.filter(matcher(needle)) =~= tail.filter(
            matcher(needle),
        ));
    }
}

/// Filters the content of one file and hands the chunks to the channel: the
/// lines of `data` that contain `record_substring` are collected in their
/// order, a chunk goes out whenever `flush_threshold` bytes have come
/// together, and what is left goes out at the end. A chunk that the channel
/// refuses is dropped and the work goes on.
pub fn filter_decoded(
    data: &[u8],
    record_substring: &[u8],
    flush_threshold: usize,
    writer_sender: &mut ChunkSender,
) -> (report: FilterReport)
    ensures
        final(writer_sender).offered() == old(writer_sender).offered() + file_chunks(
            data@,
            record_substring@,
            flush_threshold as nat,
        ),
        reported(
            report,
            old(writer_sender).verdicts(),
            final(writer_sender).verdicts(),
            file_chunks(data@, record_substring@, flush_threshold as nat).len(),
        ),
{
    let ghost needle = record_substring@;
    let ghost threshold = flush_threshold as nat;
    let ghost mut sent: Seq<Seq<u8>> = Seq::empty();
    let ghost mut said: Seq<bool> = Seq::empty();
    let len: usize = data.len();
    let mut out = ChunkAccumulator::new(flush_threshold);
    let mut report = FilterReport::new();
    let mut pos: usize = 0;
    assert(data@.skip(0) =~= data@);
    while pos < len
        invariant
            len == data@.len(),
            pos <= len,
            needle == record_substring@,
            threshold == flush_threshold as nat,
            out.threshold() == threshold,
            out.pending().len() <= pos,
            report.delivered + report.dropped + (if out.pending().len() > 0 {
                1int
            } else {
                0int
            }) <= pos,
            said.len() == sent.len(),
            report.delivered == taken(said),
            report.dropped == said.len() - taken(said),
            writer_sender.offered() == old(writer_sender).offered() + sent,
            writer_sender.verdicts() == old(writer_sender).verdicts() + said,
            file_chunks(data@, needle, threshold) == sent + pack(
                matching_lines(data@.skip(pos as int), needle),
                threshold,
                out.pending(),
            ),
        decreases len - pos,
    {
        let ghost rest = data@.skip(pos as int);
        let end = line_end(data, pos);
        let line = slice_subrange(data, pos, end);
        proof {
            lemma_first_line_len(rest);
            lemma_matching_lines_unfold(rest, needle);
            assert(rest.take(end - pos) =~= line@);
            assert(rest.skip(end - pos) =~= data@.skip(end as int));
        }
        if crate::line_filter::matches(line, record_substring) {
            let ghost tail = matching_lines(data@.skip(end as int), needle);
            proof {
                assert((seq![line@] + tail)[0] == line@);
                assert((seq![line@] + tail).skip(1) =~= tail);
            }
            match out.append(line) {
                Some(chunk) => {
                    let ghost bytes = chunk@;
                    let accepted = writer_sender.send(chunk);
                    report.record(accepted);
                    proof {
                        assert(sent + (seq![bytes] + pack(tail, threshold, Seq::empty()))
                            =~= sent.push(bytes) + pack(tail, threshold, Seq::empty()));
                        assert(old(writer_sender).offered() + sent.push(bytes) =~= (old(
                            writer_sender,
                        ).offered() + sent).push(bytes));
                        assert(old(writer_sender).verdicts() + said.push(accepted) =~= (old(
                            writer_sender,
                        ).verdicts() + said).push(accepted));
                        lemma_taken_push(said, accepted);
                        sent = sent.push(bytes);
                        said = said.push(accepted);
                    }
                },
                None => {},
            }
        }
        pos = end;
    }
    proof {
        assert(data@.skip(pos as int) =~= Seq::<u8>::empty());
        assert(matching_lines(Seq::<u8>::empty(), needle) =~= Seq::<Seq<u8>>::empty()) by {
            reveal_with_fuel(Seq::filter, 1);
        }
    }
    match out.finish() {
        Some(chunk) => {
            let ghost bytes = chunk@;
            let accepted = writer_sender.send(chunk);
            report.record(accepted);
            proof {
                assert(sent + seq![bytes] =~= sent.push(bytes));
                assert(old(writer_sender).offered() + sent.push(bytes) =~= (old(
                    writer_sender,
                ).offered() + sent).push(bytes));
                assert(old(writer_sender).verdicts() + said.push(accepted) =~= (old(
                    writer_sender,
                ).verdicts() + said).push(accepted));
                lemma_taken_push(said, accepted);
                sent = sent.push(bytes);
                said = said.push(accepted);
            }
        },
        None => {
            proof {
                assert(sent + Seq::<Seq<u8>>::empty() =~= sent);
            }
        },
    }
    proof {
        let before = old(writer_sender).verdicts();
        assert((before + said).take(before.len() as int) =~= before);
        assert((before + said).skip(before.len() as int) =~= said);
    }
    report
}

/// Processes one gzip file, given as the bytes it holds: decodes it and, if
/// that succeeds, filters its content as `filter_decoded` does. A file that
/// cannot be decoded sends nothing.
pub fn filter_single_gziped_csv(
    compressed: &[u8],
    record_substring: &[u8],
    flush_threshold: usize,
    writer_sender: &mut ChunkSender,
) -> (done: Result<FilterReport, FilterError>)
    ensures
        final(writer_sender).offered() == offered_after(
            old(writer_sender).offered(),
            compressed@,
            record_substring@,
            flush_threshold as nat,
        ),
        match gzip_payload(compressed@) {
            Some(data) => {
                &&& done matches Ok(report)
                &&& reported(
                    report,
                    old(writer_sender).verdicts(),
                    final(writer_sender).verdicts(),
                    file_chunks(data, record_substring@, flush_threshold as nat).len(),
                )
            },
            None => {
                &&& done == Err::<FilterReport, FilterError>(FilterError::Decompression)
                &&& final(writer_sender).verdicts() == old(writer_sender).verdicts()
            },
        },
{
    match decode(compressed) {
        Ok(data) => Ok(
            filter_decoded(data.as_slice(), record_substring, flush_threshold, writer_sender),
        ),
        Err(e) => Err(e),
    }
}

} // verus!
