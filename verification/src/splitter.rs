//! The counting that decides, line by line, which part a line goes to and
//! when a new part is opened.

use vstd::prelude::*;
use core::time::Duration;
use crate::error::SplitError;
use crate::parts::{lemma_part_count_step, lemma_part_count_zero, part_count, part_of_line};

verus! {

/// The number of lines to a part where none is configured.
pub const DEFAULT_LINES_PER_FILE: usize = 5000;

/// What to do with the next line.
#[derive(Debug, Clone, Copy, PartialEq, Eq, Structural)]
pub struct LineAction {
    /// Index of the part that the line is written to.
    pub index: usize,
    /// Whether that part is new: the part written to before, if any, is
    /// closed, and the part `index` is created before the line is written.
    pub rotate: bool,
}

/// What a completed split has done.
#[derive(Debug, Clone, Copy, PartialEq, Eq)]
pub struct SplitSummary {
    /// Number of parts created.
    pub file_count: usize,
    /// Number of lines read and written.
    pub line_count: usize,
    /// Time that the split took.
    pub elapsed: Duration,
}

/// The counters of a split in progress.
#[derive(Debug, Clone, Copy)]
pub struct Splitter {
    lines_per_file: usize,
    line_count: usize,
    file_count: usize,
}

impl Splitter {
    /// The configured number of lines to a part.
    pub closed spec fn spec_lines_per_file(&self) -> usize {
        self.lines_per_file
    }

    /// Number of lines seen so far.
    pub closed spec fn spec_line_count(&self) -> usize {
        self.line_count
    }

    /// Number of parts opened so far.
    pub closed spec fn spec_file_count(&self) -> usize {
        self.file_count
    }

    /// The quota is positive, and the parts opened are those that the lines
    /// seen so far fill.
    pub open spec fn wf(&self) -> bool {
        &&& self.lines_per_file() >= 1
        &&& self.file_count() == part_count(self.line_count() as nat, self.lines_per_file() as nat)
    }

    /// A splitter that has seen no line. A quota of zero is refused.
    pub fn new(lines_per_file: usize) -> (made: Result<Splitter, SplitError>)
        ensures
            lines_per_file == 0 ==> made == Err::<Splitter, SplitError>(SplitError::ZeroLinesPerFile),
            lines_per_file >= 1 ==> made is Ok,
            made is Ok ==> {
                &&& made->Ok_0.wf()
                &&& made->Ok_0.lines_per_file() == lines_per_file
                &&& made->Ok_0.line_count() == 0
                &&& made->Ok_0.file_count() == 0
            },
    {
        if lines_per_file == 0 {
            return Err(SplitError::ZeroLinesPerFile);
        }
        proof {
            lemma_part_count_zero(0, lines_per_file as nat);
        }
        Ok(Splitter { lines_per_file, line_count: 0, file_count: 0 })
    }

    #[verifier::when_used_as_spec(spec_lines_per_file)]
    pub fn lines_per_file(&self) -> (quota: usize)
        ensures
            quota == self.lines_per_file(),
    {
        self.lines_per_file
    }

    #[verifier::when_used_as_spec(spec_line_count)]
    pub fn line_count(&self) -> (count: usize)
        ensures
            count == self.line_count(),
    {
        self.line_count
    }

    #[verifier::when_used_as_spec(spec_file_count)]
    pub fn file_count(&self) -> (count: usize)
        ensures
            count == self.file_count(),
    {
        self.file_count
    }

    /// Counts one more line and says where it goes. A line whose number is a
    /// multiple of the quota opens the next part; any other line goes to
    /// the part that is open.
    pub fn on_line(&mut self) -> (action: LineAction)
        requires
            old(self).wf(),
            old(self).line_count() < usize::MAX,
        ensures
            final(self).wf(),
            final(self).lines_per_file() == old(self).lines_per_file(),
            final(self).line_count() == old(self).line_count() + 1,
            final(self).file_count() == action.index,
            final(self).file_count() == if action.rotate {
                old(self).file_count() + 1
            } else {
                old(self).file_count() as int
            },
            action.rotate == (old(self).line_count() % old(self).lines_per_file() == 0),
            action.index == part_of_line(
                old(self).line_count() as nat,
                old(self).lines_per_file() as nat,
            ),
    {
        proof {
            lemma_part_count_step(self.line_count as nat, self.lines_per_file as nat);
            lemma_part_count_zero(self.line_count as nat, self.lines_per_file as nat);
        }
        let rotate = self.line_count % self.lines_per_file == 0;
        if rotate {
            self.file_count = self.file_count + 1;
        }
        self.line_count = self.line_count + 1;
        LineAction { index: self.file_count, rotate }
    }

    /// The summary of the split once the input is exhausted.
    pub fn finish(&self, elapsed: Duration) -> (summary: SplitSummary)
        requires
            self.wf(),
        ensures
            summary.line_count == self.line_count(),
            summary.file_count == self.file_count(),
            summary.file_count == part_count(self.line_count() as nat, self.lines_per_file() as nat),
            summary.elapsed == elapsed,
    {
        SplitSummary { file_count: self.file_count, line_count: self.line_count, elapsed }
    }
}

} // verus!
