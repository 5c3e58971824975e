//! Lines of a byte stream: maximal runs of bytes between newline bytes.

use vstd::prelude::*;

verus! {

/// The byte that ends a line.
pub const NEWLINE: u8 = 10;

/// Whether `line` is free of the newline byte.
pub open spec fn is_line(line: Seq<u8>) -> bool {
    forall|j: int| 0 <= j < line.len() ==> line[j] != NEWLINE
}

/// Position of the first newline byte of `data`, or `data.len()` where it
/// holds none.
pub open spec fn first_newline(data: Seq<u8>) -> nat
    decreases data.len(),
{
    if data.len() == 0 || data[0] == NEWLINE {
        0
    } else {
        1 + first_newline(data.drop_first())
    }
}

/// The lines of `data`. Every newline byte ends a line; bytes after the last
/// newline form a final line of their own, and an empty stream has no line.
pub open spec fn segments(data: Seq<u8>) -> Seq<Seq<u8>>
    decreases data.len(),
{
    if data.len() == 0 {
        Seq::empty()
    } else {
        let cut = first_newline(data) as int;
        if cut >= data.len() {
            seq![data]
        } else {
            seq![data.take(cut)] + segments(data.skip(cut + 1))
        }
    }
}

/// The bytes of `lines` written out one after another, each followed by one
/// newline byte.
pub open spec fn join_lines(lines: Seq<Seq<u8>>) -> Seq<u8>
    decreases lines.len(),
{
    if lines.len() == 0 {
        Seq::empty()
    } else {
        join_lines(lines.drop_last()) + lines.last().push(NEWLINE)
    }
}

/// `first_newline` is the one position that holds a newline and has none
/// before it, or the length where there is no such position.
pub proof fn lemma_first_newline(data: Seq<u8>)
    ensures
        first_newline(data) <= data.len(),
        is_line(data.take(first_newline(data) as int)),
        first_newline(data) < data.len() ==> data[first_newline(data) as int] == NEWLINE,
    decreases data.len(),
{
    if data.len() == 0 || data[0] == NEWLINE {
    } else {
        let rest = data.drop_first();
        lemma_first_newline(rest);
        let cut = first_newline(data) as int;
        assert forall|j: int| 0 <= j < cut implies #[trigger] data.take(cut)[j] != NEWLINE by {
            if j > 0 {
                assert(data.take(cut)[j] == rest.take(cut - 1)[j - 1]);
            }
        }
    }
}

/// A position that holds the first newline of `data` is `first_newline(data)`.
pub proof fn lemma_first_newline_at(data: Seq<u8>, cut: int)
    requires
        0 <= cut <= data.len(),
        forall|j: int| 0 <= j < cut ==> data[j] != NEWLINE,
        cut < data.len() ==> data[cut] == NEWLINE,
    ensures
        first_newline(data) == cut,
{
    lemma_first_newline(data);
    let found = first_newline(data) as int;
    if found < cut {
        assert(data[found] == NEWLINE);
    } else if found > cut {
        assert(data.take(found)[cut] == NEWLINE);
    }
}

/// The deep view of a byte vector is its view.
pub proof fn lemma_bytes_deep_view(bytes: Vec<u8>)
    ensures
        bytes.deep_view() == bytes@,
{
    assert(bytes.deep_view() =~= bytes@);
}

/// Pushing a byte vector onto a vector of lines appends its bytes to the
/// deep view.
proof fn lemma_lines_push(before: Vec<Vec<u8>>, line: Vec<u8>, after: Vec<Vec<u8>>)
    requires
        after@ == before@.push(line),
    ensures
        after.deep_view() == before.deep_view().push(line@),
{
    lemma_bytes_deep_view(line);
    assert(after.deep_view() =~= before.deep_view().push(line@));
}

/// What `join_lines(segments(data))` gives back: `data` itself where it is
/// empty or ends in a newline, and `data` with one newline added otherwise.
pub open spec fn newline_terminated(data: Seq<u8>) -> Seq<u8> {
    if data.len() == 0 || data.last() == NEWLINE {
        data
    } else {
        data.push(NEWLINE)
    }
}

/// Joining two runs of lines one after the other joins their bytes.
pub proof fn lemma_join_concat(front: Seq<Seq<u8>>, back: Seq<Seq<u8>>)
    ensures
        join_lines(front + back) == join_lines(front) + join_lines(back),
    decreases back.len(),
{
    if back.len() == 0 {
        assert(front + back =~= front);
        assert(join_lines(front) + join_lines(back) =~= join_lines(front));
    } else {
        assert((front + back).drop_last() =~= front + back.drop_last());
        assert((front + back).last() == back.last());
        lemma_join_concat(front, back.drop_last());
        assert(join_lines(front + back) =~= join_lines(front) + join_lines(back));
    }
}

/// One line joined is its bytes and a newline.
pub proof fn lemma_join_single(line: Seq<u8>)
    ensures
        join_lines(seq![line]) == line.push(NEWLINE),
{
    let single = seq![line];
    assert(single.drop_last() =~= Seq::<Seq<u8>>::empty());
    assert(join_lines(single.drop_last()) =~= Seq::<u8>::empty());
    assert(single.last() == line);
    assert(join_lines(single) =~= line.push(NEWLINE));
}

/// No line of a stream holds a newline byte.
pub proof fn lemma_segments_are_lines(data: Seq<u8>)
    ensures
        forall|k: int| 0 <= k < segments(data).len() ==> is_line(#[trigger] segments(data)[k]),
    decreases data.len(),
{
    if data.len() > 0 {
        lemma_first_newline(data);
        let cut = first_newline(data) as int;
        if cut >= data.len() {
            assert(data.take(cut) =~= data);
        } else {
            let rest = segments(data.skip(cut + 1));
            lemma_segments_are_lines(data.skip(cut + 1));
            assert forall|k: int| 0 <= k < segments(data).len() implies is_line(
                #[trigger] segments(data)[k],
            ) by {
                if k > 0 {
                    assert(segments(data)[k] == rest[k - 1]);
                }
            }
        }
    }
}

/// A stream has at most as many lines as bytes.
pub proof fn lemma_segments_count(data: Seq<u8>)
    ensures
        segments(data).len() <= data.len(),
    decreases data.len(),
{
    if data.len() > 0 {
        lemma_first_newline(data);
        let cut = first_newline(data) as int;
        if cut < data.len() {
            lemma_segments_count(data.skip(cut + 1));
        }
    }
}

/// Writing the lines of a stream back out, each with its newline, gives the
/// stream again, with a newline added at its end where it lacked one.
pub proof fn lemma_join_of_segments(data: Seq<u8>)
    ensures
        join_lines(segments(data)) == newline_terminated(data),
    decreases data.len(),
{
    if data.len() > 0 {
        lemma_first_newline(data);
        let cut = first_newline(data) as int;
        if cut >= data.len() {
            assert(data.take(cut) =~= data);
            lemma_join_single(data);
        } else {
            let head = data.take(cut);
            let rest = data.skip(cut + 1);
            lemma_join_of_segments(rest);
            lemma_join_concat(seq![head], segments(rest));
            lemma_join_single(head);
            assert(head.push(NEWLINE) =~= data.take(cut + 1));
            if rest.len() == 0 {
                assert(data.take(cut + 1) + rest =~= data);
            } else {
                assert(rest.last() == data.last());
                if rest.last() == NEWLINE {
                    assert(data.take(cut + 1) + rest =~= data);
                } else {
                    assert(data.take(cut + 1) + rest.push(NEWLINE) =~= data.push(NEWLINE));
                }
            }
        }
    }
}

/// Lines that hold no newline byte come back unchanged, byte for byte, from
/// the stream that they were written to.
pub proof fn lemma_segments_of_join(lines: Seq<Seq<u8>>)
    requires
        forall|k: int| 0 <= k < lines.len() ==> is_line(#[trigger] lines[k]),
    ensures
        segments(join_lines(lines)) == lines,
    decreases lines.len(),
{
    if lines.len() > 0 {
        let head = lines[0];
        let tail = lines.drop_first();
        let data = join_lines(lines);
        assert(lines =~= seq![head] + tail);
        lemma_join_concat(seq![head], tail);
        lemma_join_single(head);
        assert(data == head.push(NEWLINE) + join_lines(tail));
        let cut = head.len() as int;
        assert(data[cut] == NEWLINE);
        assert forall|j: int| 0 <= j < cut implies data[j] != NEWLINE by {
            assert(data[j] == head[j]);
        }
        lemma_first_newline_at(data, cut);
        assert(data.take(cut) =~= head);
        assert(data.skip(cut + 1) =~= join_lines(tail));
        lemma_segments_of_join(tail);
        assert(segments(data) =~= lines);
    }
}

/// Splits `data` into its lines.
pub fn split_segments(data: &[u8]) -> (lines: Vec<Vec<u8>>)
    ensures
        lines.deep_view() == segments(data@),
{
    let mut lines: Vec<Vec<u8>> = Vec::new();
    let mut current: Vec<u8> = Vec::new();
    let ghost mut start: int = 0;
    let mut i: usize = 0;
    proof {
        assert(data@.skip(0) =~= data@);
        assert(lines.deep_view() + segments(data@) =~= segments(data@));
    }
    while i < data.len()
        invariant
            0 <= start <= i <= data.len(),
            current@ == data@.subrange(start, i as int),
            is_line(current@),
            lines.deep_view() + segments(data@.skip(start)) == segments(data@),
        decreases data.len() - i,
    {
        let b: u8 = data[i];
        if b == NEWLINE {
            proof {
                let rest = data@.skip(start);
                let cut = i - start;
                assert forall|j: int| 0 <= j < cut implies rest[j] != NEWLINE by {
                    assert(rest[j] == current@[j]);
                }
                lemma_first_newline_at(rest, cut);
                assert(rest.take(cut) =~= current@);
                assert(rest.skip(cut + 1) =~= data@.skip(i + 1));
                assert(lines.deep_view().push(current@) + segments(data@.skip(i + 1))
                    =~= lines.deep_view() + segments(rest));
            }
            let ghost before = lines;
            let ghost line = current;
            lines.push(current);
            proof {
                lemma_lines_push(before, line, lines);
            }
            current = Vec::new();
            proof {
                start = i + 1;
            }
        } else {
            current.push(b);
        }
        i = i + 1;
        assert(current@ =~= data@.subrange(start, i as int));
    }
    if current.len() > 0 {
        proof {
            let rest = data@.skip(start);
            assert(rest =~= current@);
            lemma_first_newline_at(rest, rest.len() as int);
            assert(lines.deep_view().push(current@) =~= lines.deep_view() + segments(rest));
        }
        let ghost before = lines;
        let ghost line = current;
        lines.push(current);
        proof {
            lemma_lines_push(before, line, lines);
        }
    } else {
        assert(data@.skip(start).len() == 0);
        assert(lines.deep_view() + segments(data@.skip(start)) =~= lines.deep_view());
    }
    lines
}

/// Appends the bytes of `line` and one newline byte to `out`.
pub fn write_line(out: &mut Vec<u8>, line: &[u8])
    ensures
        final(out)@ == old(out)@ + line@.push(NEWLINE),
{
    let mut i: usize = 0;
    while i < line.len()
        invariant
            i <= line.len(),
            out@ == old(out)@ + line@.take(i as int),
        decreases line.len() - i,
    {
        out.push(line[i]);
        i = i + 1;
        assert(out@ =~= old(out)@ + line@.take(i as int));
    }
    out.push(NEWLINE);
    assert(out@ =~= old(out)@ + line@.push(NEWLINE));
}

} // verus!
