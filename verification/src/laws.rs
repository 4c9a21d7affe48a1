//! What holds of the output, whatever the input: which lines it holds, in
//! what order, how it depends on the order in which chunks arrive, and how
//! much of it can be under way at once.

use crate::accumulator::{chunk_bound, lemma_pack_flatten, lemma_pack_sizes, lemma_pack_terminated};
use crate::line_filter::line_matches;
use crate::decoder::gzip_payload;
use crate::lines::{
    is_line, is_terminated, lemma_split_lines_concat, lemma_split_lines_flatten,
    lemma_split_lines_well_formed, lemma_split_of_joined, split_lines, well_formed_lines,
};
use crate::pipeline::{file_chunks, matcher, matching_lines, offered_after};
use vstd::multiset::Multiset;
use vstd::prelude::*;

verus! {

/// The chunks of a whole run over `files`, each given as the bytes it holds,
/// in the order in which one worker that took the files one after another
/// would offer them.
pub open spec fn run_chunks(files: Seq<Seq<u8>>, needle: Seq<u8>, threshold: nat) -> Seq<Seq<u8>>
    decreases files.len(),
{
    if files.len() == 0 {
        Seq::empty()
    } else {
        offered_after(
            run_chunks(files.drop_last(), needle, threshold),
            files.last(),
            needle,
            threshold,
        )
    }
}

/// `arrival` is an order in which the chunks of a run over `files` can reach
/// the writer: the workers interleave as they will, but every chunk arrives,
/// and arrives once.
pub open spec fn is_arrival_order(
    arrival: Seq<Seq<u8>>,
    files: Seq<Seq<u8>>,
    needle: Seq<u8>,
    threshold: nat,
) -> bool {
    arrival.to_multiset() == run_chunks(files, needle, threshold).to_multiset()
}

/// No line of `data` is longer than `longest`.
pub open spec fn lines_within(data: Seq<u8>, longest: nat) -> bool {
    forall|j: int|
        0 <= j < split_lines(data).len() ==> (#[trigger] split_lines(data)[j]).len() <= longest
}

/// A filter adds nothing: what it keeps was there before.
proof fn lemma_filter_subset(lines: Seq<Seq<u8>>, pred: spec_fn(Seq<u8>) -> bool)
    ensures
        forall|i: int|
            0 <= i < lines.filter(pred).len() ==> lines.contains(#[trigger] lines.filter(pred)[i]),
{
    let kept = lines.filter(pred);
    assert forall|i: int| 0 <= i < kept.len() implies lines.contains(#[trigger] kept[i]) by {
        assert(kept.contains(kept[i]));
        lines.lemma_filter_contains_rev(pred, kept[i]);
    }
}

/// A filter takes lines out of a well-formed sequence and leaves it well
/// formed: only the last line can lack a terminator, and it stays last.
proof fn lemma_filter_well_formed(lines: Seq<Seq<u8>>, pred: spec_fn(Seq<u8>) -> bool)
    requires
        well_formed_lines(lines),
    ensures
        well_formed_lines(lines.filter(pred)),
    decreases lines.len(),
{
    reveal(Seq::filter);
    if lines.len() > 0 {
        let init = lines.drop_last();
        let last = lines.last();
        assert forall|i: int| 0 <= i < init.len() implies is_line(#[trigger] init[i])
            && is_terminated(init[i]) by {
            assert(init[i] == lines[i]);
        }
        lemma_filter_well_formed(init, pred);
        let kept = init.filter(pred);
        lemma_filter_subset(init, pred);
        assert forall|i: int| 0 <= i < kept.len() implies is_terminated(#[trigger] kept[i]) by {
            assert(init.contains(kept[i]));
            let j = choose|j: int| 0 <= j < init.len() && init[j] == kept[i];
            assert(is_terminated(init[j]));
        }
        if pred(last) {
            let all = kept.push(last);
            assert(is_line(lines[lines.len() - 1]));
            assert forall|i: int| 0 <= i < all.len() implies is_line(#[trigger] all[i]) by {
                if i < kept.len() {
                    assert(all[i] == kept[i]);
                }
            }
            assert forall|i: int| 0 <= i < all.len() - 1 implies is_terminated(
                #[trigger] all[i],
            ) by {
                assert(all[i] == kept[i]);
            }
        }
    }
}

/// With an empty needle the filter keeps every line.
proof fn lemma_empty_needle_keeps_all(lines: Seq<Seq<u8>>, needle: Seq<u8>)
    requires
        needle.len() == 0,
    ensures
        lines.filter(matcher(needle)) == lines,
    decreases lines.len(),
{
    reveal(Seq::filter);
    if lines.len() > 0 {
        lemma_empty_needle_keeps_all(lines.drop_last(), needle);
        assert(line_matches(lines.last(), needle));
        assert(lines.drop_last().push(lines.last()) =~= lines);
    }
}

/// The lines of what a file contributes to the output are the lines of its
/// content that contain the needle: all of them, each as often as it stands
/// there, and in the same order. With an empty needle the output is the
/// content itself.
pub proof fn lemma_filter_correctness(data: Seq<u8>, needle: Seq<u8>, threshold: nat)
    ensures
        split_lines(file_chunks(data, needle, threshold).flatten()) == matching_lines(
            data,
            needle,
        ),
        forall|line: Seq<u8>|
            #[trigger] matching_lines(data, needle).contains(line) <==> split_lines(
                data,
            ).contains(line) && line_matches(line, needle),
        needle.len() == 0 ==> file_chunks(data, needle, threshold).flatten() == data,
{
    let lines = split_lines(data);
    let kept = matching_lines(data, needle);
    lemma_split_lines_well_formed(data);
    lemma_filter_well_formed(lines, matcher(needle));
    lemma_pack_flatten(kept, threshold, Seq::empty());
    assert(Seq::<u8>::empty() + kept.flatten() =~= kept.flatten());
    lemma_split_of_joined(kept);
    assert forall|line: Seq<u8>| #[trigger]
        kept.contains(line) <==> lines.contains(line) && line_matches(line, needle) by {
        if kept.contains(line) {
            let i = choose|i: int| 0 <= i < kept.len() && kept[i] == line;
            lines.lemma_filter_pred(matcher(needle), i);
            lines.lemma_filter_contains_rev(matcher(needle), line);
        }
        if lines.contains(line) && line_matches(line, needle) {
            let i = choose|i: int| 0 <= i < lines.len() && lines[i] == line;
            lines.lemma_filter_contains(matcher(needle), i);
        }
    }
    if needle.len() == 0 {
        lemma_empty_needle_keeps_all(lines, needle);
        lemma_split_lines_flatten(data);
    }
}

/// The lines of each chunk, taken chunk by chunk, as a multiset.
spec fn lines_by_chunk(chunks: Seq<Seq<u8>>) -> Multiset<Seq<u8>>
    decreases chunks.len(),
{
    if chunks.len() == 0 {
        Multiset::empty()
    } else {
        split_lines(chunks.first()).to_multiset().add(lines_by_chunk(chunks.drop_first()))
    }
}

/// Where every chunk ends in a terminator, no line runs from one chunk into
/// the next: the lines of the output are the lines of the chunks.
proof fn lemma_lines_of_output(chunks: Seq<Seq<u8>>)
    requires
        forall|i: int| 0 <= i < chunks.len() ==> is_terminated(#[trigger] chunks[i]),
    ensures
        split_lines(chunks.flatten()).to_multiset() == lines_by_chunk(chunks),
    decreases chunks.len(),
{
    if chunks.len() == 0 {
        assert(chunks.flatten() =~= Seq::<u8>::empty());
        vstd::seq_lib::to_multiset_len(split_lines(chunks.flatten()));
        assert(split_lines(chunks.flatten()).to_multiset() =~= Multiset::empty());
    } else {
        let chunk = chunks.first();
        let later = chunks.drop_first();
        assert forall|i: int| 0 <= i < later.len() implies is_terminated(#[trigger] later[i]) by {
            assert(later[i] == chunks[i + 1]);
        }
        lemma_lines_of_output(later);
        assert(is_terminated(chunks[0]));
        lemma_split_lines_concat(chunk, later.flatten());
        vstd::seq_lib::lemma_multiset_commutative(
            split_lines(chunk),
            split_lines(later.flatten()),
        );
    }
}

/// Taking a chunk out takes its lines out, wherever it stood.
proof fn lemma_lines_by_chunk_remove(chunks: Seq<Seq<u8>>, j: int)
    requires
        0 <= j < chunks.len(),
    ensures
        lines_by_chunk(chunks) == split_lines(chunks[j]).to_multiset().add(
            lines_by_chunk(chunks.remove(j)),
        ),
    decreases j,
{
    if j == 0 {
        assert(chunks.remove(0) =~= chunks.drop_first());
    } else {
        let later = chunks.drop_first();
        lemma_lines_by_chunk_remove(later, j - 1);
        let without = chunks.remove(j);
        assert(without.first() == chunks.first());
        assert(without.drop_first() =~= later.remove(j - 1));
        assert(later[j - 1] == chunks[j]);
        assert(lines_by_chunk(chunks) =~= split_lines(chunks[j]).to_multiset().add(
            lines_by_chunk(without),
        ));
    }
}

/// The lines of the chunks do not depend on the order of the chunks.
proof fn lemma_lines_by_chunk_permuted(a: Seq<Seq<u8>>, b: Seq<Seq<u8>>)
    requires
        a.to_multiset() == b.to_multiset(),
    ensures
        lines_by_chunk(a) == lines_by_chunk(b),
    decreases a.len(),
{
    vstd::seq_lib::to_multiset_len(a);
    vstd::seq_lib::to_multiset_len(b);
    if a.len() > 0 {
        let chunk = a.first();
        assert(a.contains(chunk)) by {
            assert(a[0] == chunk);
        }
        vstd::seq_lib::to_multiset_contains(a, chunk);
        vstd::seq_lib::to_multiset_contains(b, chunk);
        let j = choose|j: int| 0 <= j < b.len() && b[j] == chunk;
        vstd::seq_lib::to_multiset_remove(a, 0);
        vstd::seq_lib::to_multiset_remove(b, j);
        assert(a.remove(0) =~= a.drop_first());
        lemma_lines_by_chunk_permuted(a.drop_first(), b.remove(j));
        lemma_lines_by_chunk_remove(b, j);
    }
}

/// The lines of the output do not depend on the order in which the chunks
/// reach the writer: where two orders hold the same chunks, and every chunk
/// ends in a terminator, the two outputs hold the same lines, each as often in
/// the one as in the other.
pub proof fn lemma_output_lines_order_independent(
    first_run: Seq<Seq<u8>>,
    second_run: Seq<Seq<u8>>,
)
    requires
        first_run.to_multiset() == second_run.to_multiset(),
        forall|i: int| 0 <= i < first_run.len() ==> is_terminated(#[trigger] first_run[i]),
    ensures
        split_lines(first_run.flatten()).to_multiset() == split_lines(
            second_run.flatten(),
        ).to_multiset(),
{
    assert forall|i: int| 0 <= i < second_run.len() implies is_terminated(
        #[trigger] second_run[i],
    ) by {
        let chunk = second_run[i];
        assert(second_run.contains(chunk));
        vstd::seq_lib::to_multiset_contains(second_run, chunk);
        vstd::seq_lib::to_multiset_contains(first_run, chunk);
        let j = choose|j: int| 0 <= j < first_run.len() && first_run[j] == chunk;
        assert(is_terminated(first_run[j]));
    }
    lemma_lines_of_output(first_run);
    lemma_lines_of_output(second_run);
    lemma_lines_by_chunk_permuted(first_run, second_run);
}

/// Lines that are not empty, put one after another, end as the last of them
/// ends.
proof fn lemma_last_of_joined(lines: Seq<Seq<u8>>)
    requires
        lines.len() > 0,
        forall|i: int| 0 <= i < lines.len() ==> (#[trigger] lines[i]).len() > 0,
    ensures
        lines.flatten().len() > 0,
        lines.flatten().last() == lines.last().last(),
    decreases lines.len(),
{
    let later = lines.drop_first();
    assert(lines.flatten() == lines.first() + later.flatten());
    assert(lines[0].len() > 0);
    if later.len() == 0 {
        assert(later.flatten() =~= Seq::<u8>::empty());
        assert(lines.first() + Seq::<u8>::empty() =~= lines.first());
    } else {
        assert forall|i: int| 0 <= i < later.len() implies (#[trigger] later[i]).len() > 0 by {
            assert(later[i] == lines[i + 1]);
        }
        lemma_last_of_joined(later);
        assert(later.last() == lines.last());
    }
}

/// Where the content of a file ends in a terminator, or is empty, every chunk
/// that the file gives rise to ends in one.
pub proof fn lemma_file_chunks_terminated(data: Seq<u8>, needle: Seq<u8>, threshold: nat)
    requires
        data.len() == 0 || is_terminated(data),
    ensures
        forall|k: int|
            0 <= k < file_chunks(data, needle, threshold).len() ==> is_terminated(
                #[trigger] file_chunks(data, needle, threshold)[k],
            ),
{
    let lines = split_lines(data);
    let kept = matching_lines(data, needle);
    lemma_split_lines_well_formed(data);
    if lines.len() > 0 {
        lemma_split_lines_flatten(data);
        lemma_last_of_joined(lines);
    }
    lemma_filter_subset(lines, matcher(needle));
    assert forall|i: int| 0 <= i < kept.len() implies is_terminated(#[trigger] kept[i]) by {
        assert(lines.contains(kept[i]));
        let j = choose|j: int| 0 <= j < lines.len() && lines[j] == kept[i];
        assert(is_line(lines[j]));
        if j < lines.len() - 1 {
            assert(is_terminated(lines[j]));
        }
    }
    lemma_pack_terminated(kept, threshold, Seq::empty());
}

/// Where the content of every file that can be decoded ends in a terminator,
/// or is empty, every chunk of the run ends in one.
pub proof fn lemma_run_chunks_terminated(files: Seq<Seq<u8>>, needle: Seq<u8>, threshold: nat)
    requires
        forall|i: int|
            0 <= i < files.len() ==> (#[trigger] gzip_payload(files[i]) matches Some(data)
                ==> data.len() == 0 || is_terminated(data)),
    ensures
        forall|k: int|
            0 <= k < run_chunks(files, needle, threshold).len() ==> is_terminated(
                #[trigger] run_chunks(files, needle, threshold)[k],
            ),
    decreases files.len(),
{
    if files.len() > 0 {
        let earlier = files.drop_last();
        assert forall|i: int| 0 <= i < earlier.len() implies (#[trigger] gzip_payload(
            earlier[i],
        ) matches Some(data) ==> data.len() == 0 || is_terminated(data)) by {
            assert(earlier[i] == files[i]);
        }
        lemma_run_chunks_terminated(earlier, needle, threshold);
        let before = run_chunks(earlier, needle, threshold);
        let all = run_chunks(files, needle, threshold);
        match gzip_payload(files[files.len() - 1]) {
            Some(data) => {
                lemma_file_chunks_terminated(data, needle, threshold);
                let added = file_chunks(data, needle, threshold);
                assert(all == before + added);
                assert forall|k: int| 0 <= k < all.len() implies is_terminated(
                    #[trigger] all[k],
                ) by {
                    if k < before.len() {
                        assert(all[k] == before[k]);
                    } else {
                        assert(all[k] == added[k - before.len()]);
                    }
                }
            },
            None => {},
        }
    }
}

/// Two runs over the same files with the same needle give outputs that hold
/// the same lines, each as often in the one as in the other, in whatever order
/// the chunks arrived, where every chunk of the run ends in a terminator.
/// (A chunk that does not would run into the chunk that arrives after it.)
pub proof fn lemma_runs_agree(
    files: Seq<Seq<u8>>,
    needle: Seq<u8>,
    threshold: nat,
    first_run: Seq<Seq<u8>>,
    second_run: Seq<Seq<u8>>,
)
    requires
        is_arrival_order(first_run, files, needle, threshold),
        is_arrival_order(second_run, files, needle, threshold),
        forall|k: int|
            0 <= k < run_chunks(files, needle, threshold).len() ==> is_terminated(
                #[trigger] run_chunks(files, needle, threshold)[k],
            ),
    ensures
        split_lines(first_run.flatten()).to_multiset() == split_lines(
            second_run.flatten(),
        ).to_multiset(),
{
    let offered = run_chunks(files, needle, threshold);
    lemma_output_lines_order_independent(offered, first_run);
    lemma_output_lines_order_independent(offered, second_run);
}

/// The sizes of a file's chunks, where no line of the file is longer than
/// `longest`: none is empty, none exceeds `chunk_bound`, and each but the
/// last has reached the threshold.
pub proof fn lemma_file_chunks_sizes(
    data: Seq<u8>,
    needle: Seq<u8>,
    threshold: nat,
    longest: nat,
)
    requires
        lines_within(data, longest),
    ensures
        forall|k: int|
            0 <= k < file_chunks(data, needle, threshold).len() ==> 0 < (#[trigger] file_chunks(
                data,
                needle,
                threshold,
            )[k]).len() <= chunk_bound(threshold, longest),
        forall|k: int|
            0 <= k < file_chunks(data, needle, threshold).len() - 1 ==> (#[trigger] file_chunks(
                data,
                needle,
                threshold,
            )[k]).len() >= threshold,
{
    let lines = split_lines(data);
    let kept = matching_lines(data, needle);
    lemma_split_lines_well_formed(data);
    lemma_filter_subset(lines, matcher(needle));
    assert forall|i: int| 0 <= i < kept.len() implies 0 < (#[trigger] kept[i]).len()
        <= longest by {
        assert(lines.contains(kept[i]));
        let j = choose|j: int| 0 <= j < lines.len() && lines[j] == kept[i];
        assert(is_line(lines[j]));
    }
    lemma_pack_sizes(kept, threshold, longest, Seq::empty());
}

/// The sizes of the chunks of a whole run, where no line of any file is
/// longer than `longest`: none is empty and none exceeds `chunk_bound`.
pub proof fn lemma_run_chunks_sizes(
    files: Seq<Seq<u8>>,
    needle: Seq<u8>,
    threshold: nat,
    longest: nat,
)
    requires
        forall|i: int|
            0 <= i < files.len() ==> (#[trigger] gzip_payload(files[i]) matches Some(data)
                ==> lines_within(data, longest)),
    ensures
        forall|k: int|
            0 <= k < run_chunks(files, needle, threshold).len() ==> 0 < (#[trigger] run_chunks(
                files,
                needle,
                threshold,
            )[k]).len() <= chunk_bound(threshold, longest),
    decreases files.len(),
{
    if files.len() > 0 {
        let earlier = files.drop_last();
        assert forall|i: int| 0 <= i < earlier.len() implies (#[trigger] gzip_payload(
            earlier[i],
        ) matches Some(data) ==> lines_within(data, longest)) by {
            assert(earlier[i] == files[i]);
        }
        lemma_run_chunks_sizes(earlier, needle, threshold, longest);
        let before = run_chunks(earlier, needle, threshold);
        let all = run_chunks(files, needle, threshold);
        match gzip_payload(files[files.len() - 1]) {
            Some(data) => {
                lemma_file_chunks_sizes(data, needle, threshold, longest);
                let added = file_chunks(data, needle, threshold);
                assert(all == before + added);
                assert forall|k: int| 0 <= k < all.len() implies 0 < (#[trigger] all[k]).len()
                    <= chunk_bound(threshold, longest) by {
                    if k < before.len() {
                        assert(all[k] == before[k]);
                    } else {
                        assert(all[k] == added[k - before.len()]);
                    }
                }
            },
            None => {},
        }
    }
}

/// A channel of capacity `capacity` holds at most that many chunks, and a
/// chunk holds at most `chunk_bound` bytes, so the bytes under way between the
/// workers and the writer never exceed the product of the two, however many
/// files and workers there are. Where no line is longer than the threshold,
/// that is less than twice the capacity times the threshold.
pub proof fn lemma_backpressure_bound(
    in_flight: Seq<Seq<u8>>,
    capacity: nat,
    threshold: nat,
    longest: nat,
)
    requires
        in_flight.len() <= capacity,
        forall|i: int|
            0 <= i < in_flight.len() ==> (#[trigger] in_flight[i]).len() <= chunk_bound(
                threshold,
                longest,
            ),
    ensures
        in_flight.flatten().len() <= capacity * chunk_bound(threshold, longest),
        longest <= threshold ==> in_flight.flatten().len() <= 2 * capacity * threshold,
{
    let bound = chunk_bound(threshold, longest) as int;
    in_flight.lemma_flatten_length_le_mul(bound);
    in_flight.lemma_flatten_and_flatten_alt_are_equivalent();
    assert(in_flight.len() * bound <= capacity * bound) by (nonlinear_arith)
        requires
            in_flight.len() <= capacity,
            0 <= bound,
    ;
    if longest <= threshold {
        assert(capacity * bound <= 2 * capacity * threshold) by (nonlinear_arith)
            requires
                0 <= bound <= 2 * threshold,
        ;
    }
}

/// Whatever chunks of a run the channel holds at some moment, they are at most
/// `capacity` chunks, and together they hold at most `capacity` times
/// `chunk_bound` bytes: a bound that the number of files and of workers does
/// not enter.
pub proof fn lemma_backpressure_bound_of_run(
    files: Seq<Seq<u8>>,
    needle: Seq<u8>,
    threshold: nat,
    longest: nat,
    capacity: nat,
    in_flight: Seq<Seq<u8>>,
)
    requires
        forall|i: int|
            0 <= i < files.len() ==> (#[trigger] gzip_payload(files[i]) matches Some(data)
                ==> lines_within(data, longest)),
        in_flight.len() <= capacity,
        forall|i: int|
            0 <= i < in_flight.len() ==> run_chunks(files, needle, threshold).contains(
                #[trigger] in_flight[i],
            ),
    ensures
        in_flight.flatten().len() <= capacity * chunk_bound(threshold, longest),
        longest <= threshold ==> in_flight.flatten().len() <= 2 * capacity * threshold,
{
    let offered = run_chunks(files, needle, threshold);
    lemma_run_chunks_sizes(files, needle, threshold, longest);
    assert forall|i: int| 0 <= i < in_flight.len() implies (#[trigger] in_flight[i]).len()
        <= chunk_bound(threshold, longest) by {
        assert(offered.contains(in_flight[i]));
        let k = choose|k: int| 0 <= k < offered.len() && offered[k] == in_flight[i];
        assert(offered[k].len() <= chunk_bound(threshold, longest));
    }
    lemma_backpressure_bound(in_flight, capacity, threshold, longest);
}

/// A file that cannot be decoded leaves no trace on the worker that met it:
/// the files before it and after it are offered to the channel as if it had
/// not been there.
pub proof fn lemma_undecodable_file_is_isolated(
    before: Seq<Seq<u8>>,
    bad: Seq<u8>,
    good: Seq<u8>,
    needle: Seq<u8>,
    threshold: nat,
)
    requires
        gzip_payload(bad) is None,
    ensures
        offered_after(before, bad, needle, threshold) == before,
        offered_after(offered_after(before, bad, needle, threshold), good, needle, threshold)
            == offered_after(before, good, needle, threshold),
        offered_after(offered_after(before, good, needle, threshold), bad, needle, threshold)
            == offered_after(before, good, needle, threshold),
{
}

/// A file that cannot be decoded, put anywhere among the files of a run,
/// changes nothing in what the run offers: every other file is processed in
/// full.
pub proof fn lemma_undecodable_file_in_run(
    files: Seq<Seq<u8>>,
    at: int,
    bad: Seq<u8>,
    needle: Seq<u8>,
    threshold: nat,
)
    requires
        0 <= at <= files.len(),
        gzip_payload(bad) is None,
    ensures
        run_chunks(files.insert(at, bad), needle, threshold) == run_chunks(
            files,
            needle,
            threshold,
        ),
    decreases files.len(),
{
    let with_bad = files.insert(at, bad);
    if at == files.len() {
        assert(with_bad.drop_last() =~= files);
        assert(with_bad.last() == bad);
    } else {
        assert(with_bad.drop_last() =~= files.drop_last().insert(at, bad));
        assert(with_bad.last() == files.last());
        lemma_undecodable_file_in_run(files.drop_last(), at, bad, needle, threshold);
    }
}

/// A run over no file has no chunk to offer, so the only order of arrival is
/// the empty one and the output is empty.
pub proof fn lemma_empty_run(arrival: Seq<Seq<u8>>, needle: Seq<u8>, threshold: nat)
    requires
        is_arrival_order(arrival, Seq::empty(), needle, threshold),
    ensures
        run_chunks(Seq::empty(), needle, threshold) == Seq::<Seq<u8>>::empty(),
        arrival == Seq::<Seq<u8>>::empty(),
        arrival.flatten() == Seq::<u8>::empty(),
{
    vstd::seq_lib::to_multiset_len(arrival);
    vstd::seq_lib::to_multiset_len(run_chunks(Seq::empty(), needle, threshold));
    assert(arrival =~= Seq::<Seq<u8>>::empty());
}

} // verus!
