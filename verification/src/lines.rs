//! Splitting decoded bytes into lines.
//!
//! A line runs up to and including its terminator, so the lines of a buffer,
//! put one after another, give the buffer back. Only the last line of a buffer
//! can lack a terminator.

use vstd::prelude::*;

verus! {

/// The byte that ends a line.
pub const NEWLINE: u8 = 10;

/// Length of the first line of `data`, its terminator included: one past the
/// first `NEWLINE`, or all of `data` where it holds none.
pub open spec fn first_line_len(data: Seq<u8>) -> nat
    decreases data.len(),
{
    if data.len() == 0 {
        0
    } else if data[0] == NEWLINE {
        1
    } else {
        1 + first_line_len(data.skip(1))
    }
}

/// What `first_line_len` picks: a non-empty prefix that holds no terminator
/// before its last byte, and that ends in one unless the data ran out.
pub proof fn lemma_first_line_len(data: Seq<u8>)
    ensures
        first_line_len(data) <= data.len(),
        data.len() > 0 ==> first_line_len(data) >= 1,
        forall|k: int| 0 <= k < first_line_len(data) - 1 ==> data[k] != NEWLINE,
        first_line_len(data) < data.len() ==> data[first_line_len(data) - 1] == NEWLINE,
    decreases data.len(),
{
    if data.len() > 0 && data[0] != NEWLINE {
        let rest = data.skip(1);
        lemma_first_line_len(rest);
        assert forall|k: int| 0 <= k < first_line_len(data) - 1 implies data[k] != NEWLINE by {
            if k > 0 {
                assert(data[k] == rest[k - 1]);
            }
        }
        if first_line_len(data) < data.len() {
            assert(data[first_line_len(data) - 1] == rest[first_line_len(rest) - 1]);
        }
    }
}

/// The lines of `data`, in order, each with its terminator.
pub open spec fn split_lines(data: Seq<u8>) -> Seq<Seq<u8>>
    decreases data.len(),
{
    if data.len() == 0 {
        Seq::empty()
    } else {
        let n = first_line_len(data) as int;
        proof {
            lemma_first_line_len(data);
        }
        seq![data.take(n)] + split_lines(data.skip(n))
    }
}

/// Finds where the line that starts at `start` ends: the index just past
/// its terminator, or the end of the data where no terminator follows. Past
/// the end of the data there is no line, and `start` comes back.
pub fn line_end(data: &[u8], start: usize) -> (end: usize)
    ensures
        start <= data@.len() ==> end == start + first_line_len(data@.skip(start as int)),
        start <= data@.len() ==> end <= data@.len(),
        start < data@.len() ==> start < end,
        start >= data@.len() ==> end == start,
{
    let len: usize = data.len();
    if start >= len {
        assert(start == len ==> first_line_len(data@.skip(start as int)) == 0);
        return start;
    }
    let mut i: usize = start;
    while i < len
        invariant
            len == data@.len(),
            start <= i <= len,
            first_line_len(data@.skip(start as int)) == (i - start) + first_line_len(
                data@.skip(i as int),
            ),
        decreases len - i,
    {
        assert(data@.skip(i as int)[0] == data@[i as int]);
        if data[i] == NEWLINE {
            return i + 1;
        }
        assert(data@.skip(i as int).skip(1) =~= data@.skip(i + 1));
        i += 1;
    }
    i
}

/// A line as the splitter yields it: not empty, and with no terminator
/// before its last byte.
pub open spec fn is_line(line: Seq<u8>) -> bool {
    &&& line.len() > 0
    &&& forall|k: int| 0 <= k < line.len() - 1 ==> line[k] != NEWLINE
}

/// The bytes end in a terminator.
pub open spec fn is_terminated(bytes: Seq<u8>) -> bool {
    bytes.len() > 0 && bytes.last() == NEWLINE
}

/// Lines as they come out of one buffer: each is a line, and each but the
/// last ends in a terminator.
pub open spec fn well_formed_lines(lines: Seq<Seq<u8>>) -> bool {
    &&& forall|i: int| 0 <= i < lines.len() ==> is_line(#[trigger] lines[i])
    &&& forall|i: int| 0 <= i < lines.len() - 1 ==> is_terminated(#[trigger] lines[i])
}

/// The first line of `line + rest` is `line`, where `line` is a line that
/// ends in a terminator or has nothing after it.
pub proof fn lemma_first_line_of_concat(line: Seq<u8>, rest: Seq<u8>)
    requires
        is_line(line),
        is_terminated(line) || rest.len() == 0,
    ensures
        first_line_len(line + rest) == line.len(),
    decreases line.len(),
{
    let whole = line + rest;
    assert(whole[0] == line[0]);
    if line.len() == 1 {
        if rest.len() == 0 {
            assert(whole.skip(1) =~= Seq::<u8>::empty());
            assert(first_line_len(whole.skip(1)) == 0);
        }
    } else {
        let shorter = line.skip(1);
        assert(whole.skip(1) =~= shorter + rest);
        assert forall|k: int| 0 <= k < shorter.len() - 1 implies shorter[k] != NEWLINE by {
            assert(shorter[k] == line[k + 1]);
        }
        assert(shorter.last() == line.last());
        lemma_first_line_of_concat(shorter, rest);
    }
}

/// What `split_lines` yields is well formed.
pub proof fn lemma_split_lines_well_formed(data: Seq<u8>)
    ensures
        well_formed_lines(split_lines(data)),
    decreases data.len(),
{
    if data.len() > 0 {
        let n = first_line_len(data) as int;
        lemma_first_line_len(data);
        let head = data.take(n);
        let tail = split_lines(data.skip(n));
        lemma_split_lines_well_formed(data.skip(n));
        let lines = split_lines(data);
        assert(lines == seq![head] + tail);
        assert(is_line(head));
        assert forall|i: int| 0 <= i < lines.len() implies is_line(#[trigger] lines[i]) by {
            if i > 0 {
                assert(lines[i] == tail[i - 1]);
            }
        }
        assert forall|i: int| 0 <= i < lines.len() - 1 implies is_terminated(
            #[trigger] lines[i],
        ) by {
            if i > 0 {
                assert(lines[i] == tail[i - 1]);
            } else {
                assert(tail.len() > 0);
                assert(n < data.len());
                assert(head.last() == data[n - 1]);
            }
        }
    }
}

/// The lines of a buffer, put one after another, give the buffer back.
pub proof fn lemma_split_lines_flatten(data: Seq<u8>)
    ensures
        split_lines(data).flatten() == data,
    decreases data.len(),
{
    if data.len() > 0 {
        let n = first_line_len(data) as int;
        lemma_first_line_len(data);
        let head = seq![data.take(n)];
        let tail = split_lines(data.skip(n));
        lemma_split_lines_flatten(data.skip(n));
        vstd::seq_lib::lemma_flatten_concat(head, tail);
        head.lemma_flatten_one_element();
        assert(data.take(n) + data.skip(n) =~= data);
    }
}

/// Splitting undoes joining: well-formed lines, put one after another and
/// split again, come back as they were.
pub proof fn lemma_split_of_joined(lines: Seq<Seq<u8>>)
    requires
        well_formed_lines(lines),
    ensures
        split_lines(lines.flatten()) == lines,
    decreases lines.len(),
{
    if lines.len() > 0 {
        let line = lines.first();
        let others = lines.drop_first();
        let joined = lines.flatten();
        assert(joined == line + others.flatten());
        assert(is_line(line));
        assert forall|i: int| 0 <= i < others.len() implies is_line(#[trigger] others[i]) by {
            assert(others[i] == lines[i + 1]);
        }
        assert forall|i: int| 0 <= i < others.len() - 1 implies is_terminated(
            #[trigger] others[i],
        ) by {
            assert(others[i] == lines[i + 1]);
        }
        lemma_split_of_joined(others);
        if others.len() > 0 {
            assert(is_terminated(lines[0]));
        } else {
            assert(others.flatten() =~= Seq::<u8>::empty());
        }
        lemma_first_line_of_concat(line, others.flatten());
        assert(joined.take(line.len() as int) =~= line);
        assert(joined.skip(line.len() as int) =~= others.flatten());
        assert(seq![line] + others =~= lines);
    } else {
        assert(lines.flatten() =~= Seq::<u8>::empty());
        assert(lines =~= Seq::<Seq<u8>>::empty());
    }
}

/// After bytes that end in a terminator a new line begins: the lines of
/// `a + b` are those of `a` and then those of `b`.
pub proof fn lemma_split_lines_concat(a: Seq<u8>, b: Seq<u8>)
    requires
        a.len() == 0 || is_terminated(a),
    ensures
        split_lines(a + b) == split_lines(a) + split_lines(b),
    decreases a.len(),
{
    if a.len() == 0 {
        assert(a + b =~= b);
        assert(split_lines(a) + split_lines(b) =~= split_lines(b));
    } else {
        let n = first_line_len(a) as int;
        lemma_first_line_len(a);
        let line = a.take(n);
        let rest = a.skip(n);
        assert(is_line(line));
        assert(line.last() == a[n - 1]);
        assert(is_terminated(line));
        assert(a + b =~= line + (rest + b));
        lemma_first_line_of_concat(line, rest + b);
        assert((a + b).take(n) =~= line);
        assert((a + b).skip(n) =~= rest + b);
        if rest.len() > 0 {
            assert(rest.last() == a.last());
        }
        lemma_split_lines_concat(rest, b);
        assert(seq![line] + (split_lines(rest) + split_lines(b)) =~= (seq![line] + split_lines(
            rest,
        )) + split_lines(b));
    }
}

} // verus!
