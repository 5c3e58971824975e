//! A whole split in memory: from the bytes of the input to the name and the
//! bytes of every part.

use vstd::prelude::*;
use crate::error::SplitError;
use crate::lines::{
    join_lines, lemma_bytes_deep_view, lemma_join_of_segments, lemma_segments_are_lines,
    lemma_segments_count, lemma_segments_of_join, newline_terminated, segments, split_segments,
    write_line,
};
use crate::naming::{part_name, part_name_of};
use crate::parts::{
    lemma_line_in_part, lemma_part_bounds, lemma_part_count_zero, lemma_part_sizes,
    lemma_parts_cover, lemma_quota_div_mod, part_content, part_contents, part_count, part_lines,
    part_of_line, part_start,
};
use crate::splitter::Splitter;

verus! {

/// One part of a split.
#[derive(Debug, PartialEq, Eq)]
pub struct PartFile {
    /// Index of the part, counted from one.
    pub index: usize,
    /// Name of the file that holds the part.
    pub name: String,
    /// The bytes of the part.
    pub content: Vec<u8>,
}

/// The parts of a split, in index order, and the number of lines dealt out.
#[derive(Debug, PartialEq, Eq)]
pub struct SplitOutput {
    /// The parts, the one with index one first.
    pub parts: Vec<PartFile>,
    /// Number of lines of the input.
    pub line_count: usize,
}

/// Whether `part` is part `index` of the lines `lines` of the input at
/// `path`, at `quota` lines to a part.
pub open spec fn is_part(
    part: PartFile,
    path: Seq<char>,
    lines: Seq<Seq<u8>>,
    quota: nat,
    index: nat,
) -> bool {
    &&& part.index == index
    &&& part.name@ == part_name_of(path, index)
    &&& part.content@ == part_content(lines, quota, index)
}

/// Whether `output` is the split of the input `data` at `path`, at `quota`
/// lines to a part.
pub open spec fn is_split_of(output: SplitOutput, path: Seq<char>, data: Seq<u8>, quota: nat) -> bool {
    &&& output.line_count == segments(data).len()
    &&& output.parts.len() == part_count(segments(data).len(), quota)
    &&& forall|k: int|
        0 <= k < output.parts.len() ==> is_part(
            #[trigger] output.parts[k],
            path,
            segments(data),
            quota,
            (k + 1) as nat,
        )
}

/// The bytes of the parts of `output`, in index order.
pub open spec fn contents_of(output: SplitOutput) -> Seq<Seq<u8>> {
    Seq::new(output.parts.len() as nat, |k: int| output.parts[k].content@)
}

/// Splits the input `data`, found at `input_path`, into parts of
/// `lines_per_file` lines. A quota of zero is refused, and no part is made.
pub fn split_bytes(input_path: &str, data: &[u8], lines_per_file: usize) -> (result: Result<
    SplitOutput,
    SplitError,
>)
    ensures
        lines_per_file == 0 ==> result is Err && result->Err_0 == SplitError::ZeroLinesPerFile,
        lines_per_file >= 1 ==> result is Ok && is_split_of(
            result->Ok_0,
            input_path@,
            data@,
            lines_per_file as nat,
        ),
        lines_per_file >= 1 ==> contents_of(result->Ok_0).flatten() == newline_terminated(data@),
{
    let mut splitter = match Splitter::new(lines_per_file) {
        Ok(splitter) => splitter,
        Err(error) => {
            return Err(error);
        },
    };
    let lines = split_segments(data);
    let ghost all = segments(data@);
    let ghost quota = lines_per_file as nat;
    proof {
        lemma_segments_count(data@);
    }
    let mut parts: Vec<PartFile> = Vec::new();
    let mut open = false;
    let mut name = String::new();
    let mut content: Vec<u8> = Vec::new();
    let mut i: usize = 0;
    while i < lines.len()
        invariant
            i <= lines.len(),
            lines.deep_view() == all,
            all == segments(data@),
            quota == lines_per_file,
            splitter.wf(),
            splitter.lines_per_file() == lines_per_file,
            splitter.line_count() == i,
            open <==> i > 0,
            !open ==> parts.len() == 0,
            open ==> {
                &&& splitter.file_count() >= 1
                &&& parts.len() == splitter.file_count() - 1
                &&& name@ == part_name_of(input_path@, splitter.file_count() as nat)
                &&& 0 <= part_start(splitter.file_count() as nat, quota) <= i
                &&& content@ == join_lines(
                    all.subrange(part_start(splitter.file_count() as nat, quota), i as int),
                )
            },
            forall|k: int|
                0 <= k < parts.len() ==> is_part(
                    #[trigger] parts[k],
                    input_path@,
                    all,
                    quota,
                    (k + 1) as nat,
                ),
        decreases lines.len() - i,
    {
        let ghost before = splitter.file_count() as nat;
        let action = splitter.on_line();
        proof {
            lemma_quota_div_mod(i as nat, quota);
        }
        if action.rotate {
            if open {
                proof {
                    assert(before * quota == i);
                }
                let ghost closed = parts@;
                parts.push(PartFile { index: splitter.file_count() - 1, name, content });
                assert forall|k: int| 0 <= k < parts.len() implies is_part(
                    #[trigger] parts[k],
                    input_path@,
                    all,
                    quota,
                    (k + 1) as nat,
                ) by {
                    if k < closed.len() {
                        assert(parts[k] == closed[k]);
                    }
                }
            }
            name = part_name(input_path, action.index);
            content = Vec::new();
            open = true;
            proof {
                assert((action.index - 1) * quota == i);
                assert(all.subrange(i as int, i as int) =~= Seq::<Seq<u8>>::empty());
            }
        }
        let ghost start = part_start(splitter.file_count() as nat, quota);
        let ghost written = content@;
        write_line(&mut content, lines[i].as_slice());
        proof {
            lemma_bytes_deep_view(lines[i as int]);
            assert(lines[i as int]@ == all[i as int]);
            let run = all.subrange(start, i + 1);
            assert(run.drop_last() =~= all.subrange(start, i as int));
            assert(run.last() == all[i as int]);
            assert(written == join_lines(run.drop_last()));
            assert(content@ == join_lines(run));
        }
        i = i + 1;
    }
    if open {
        proof {
            lemma_part_bounds(all.len(), quota, splitter.file_count() as nat);
        }
        let ghost closed = parts@;
        parts.push(PartFile { index: splitter.file_count(), name, content });
        assert forall|k: int| 0 <= k < parts.len() implies is_part(
            #[trigger] parts[k],
            input_path@,
            all,
            quota,
            (k + 1) as nat,
        ) by {
            if k < closed.len() {
                assert(parts[k] == closed[k]);
            }
        }
    } else {
        proof {
            lemma_part_count_zero(0, quota);
        }
    }
    let output = SplitOutput { parts, line_count: i };
    proof {
        lemma_split_round_trip(output, input_path@, data@, quota);
    }
    Ok(output)
}

/// The parts of a split, written one after another in index order, are the
/// input itself, with a newline added at its end where it lacked one: every
/// line once, in its place, ended by exactly one newline.
pub proof fn lemma_split_round_trip(output: SplitOutput, path: Seq<char>, data: Seq<u8>, quota: nat)
    requires
        quota >= 1,
        is_split_of(output, path, data, quota),
    ensures
        contents_of(output).flatten() == newline_terminated(data),
{
    assert(contents_of(output) =~= part_contents(segments(data), quota));
    lemma_parts_cover(segments(data), quota);
    lemma_join_of_segments(data);
}

/// The lines that a part holds are the lines that fall to it: `quota` lines
/// in every part but the last, and in the last what remains, `quota` lines
/// again where the lines fill their parts exactly.
pub proof fn lemma_split_part_lines(
    output: SplitOutput,
    path: Seq<char>,
    data: Seq<u8>,
    quota: nat,
    index: nat,
)
    requires
        quota >= 1,
        is_split_of(output, path, data, quota),
        1 <= index <= output.parts.len(),
    ensures
        segments(output.parts[index - 1].content@) == part_lines(segments(data), quota, index),
        index < output.parts.len() ==> segments(output.parts[index - 1].content@).len() == quota,
        index == output.parts.len() ==> segments(output.parts[index - 1].content@).len() == (if segments(
            data,
        ).len() % quota == 0 {
            quota
        } else {
            segments(data).len() % quota
        }),
{
    let lines = segments(data);
    let part = output.parts[index - 1];
    assert(is_part(part, path, lines, quota, index));
    lemma_part_bounds(lines.len(), quota, index);
    lemma_segments_are_lines(data);
    lemma_segments_of_join(part_lines(lines, quota, index));
    lemma_part_sizes(lines, quota, index);
}

/// Every line of the input stands in the part that its number assigns it
/// to, at its place and byte for byte, whatever bytes it holds.
pub proof fn lemma_split_keeps_line(
    output: SplitOutput,
    path: Seq<char>,
    data: Seq<u8>,
    quota: nat,
    line: nat,
)
    requires
        quota >= 1,
        is_split_of(output, path, data, quota),
        line < segments(data).len(),
    ensures
        1 <= part_of_line(line, quota) <= output.parts.len(),
        line % quota < segments(output.parts[part_of_line(line, quota) - 1].content@).len(),
        segments(output.parts[part_of_line(line, quota) - 1].content@)[(line % quota) as int]
            == segments(data)[line as int],
{
    lemma_line_in_part(segments(data), quota, line);
    lemma_split_part_lines(output, path, data, quota, part_of_line(line, quota));
}

} // verus!
