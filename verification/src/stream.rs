//! The decisions of reading a text file in batches of lines: which lines
//! make a batch, how line endings are removed and when the stream is done.
//! Reading the lines themselves is left to the caller, which hands each
//! outcome of a read to the `BatchReader`.
use vstd::prelude::*;
use crate::text::{chars_of, string_of_range};
use crate::processor::TextProcessor;

verus! {

/// A line without its line ending: a final `\n` is removed, and then a
/// final `\r` before it.
pub open spec fn strip_line_ending_spec(line: Seq<char>) -> Seq<char> {
    if line.len() > 0 && line.last() == '\n' {
        let l = line.drop_last();
        if l.len() > 0 && l.last() == '\r' {
            l.drop_last()
        } else {
            l
        }
    } else {
        line
    }
}

/// Removes the line ending of a line as read from a file (see `strip_line_ending_spec`).
pub fn strip_line_ending(line: &str) -> (r: String)
    ensures
        r@ == strip_line_ending_spec(line@),
{
    let cs = chars_of(line);
    let mut n = cs.len();
    if n > 0 && cs[n - 1] == '\n' {
        n = n - 1;
        if n > 0 && cs[n - 1] == '\r' {
            n = n - 1;
        }
    }
    let r = string_of_range(cs.as_slice(), 0, n);
    assert(r@ =~= strip_line_ending_spec(line@));
    r
}

/// The outcome of reading one line.
pub enum ReadOutcome {
    /// A line was read, with its line ending if it had one.
    Line(String),
    /// The end of the file was reached.
    EndOfFile,
    /// Reading failed.
    Failed,
}

/// What to do at the start of a request for the next batch.
pub enum BatchStep {
    /// The stream is done: there is no batch.
    Finished,
    /// These buffered lines are the batch.
    Ready(Vec<String>),
    /// Read lines, handing each outcome to `on_read`, while `wants_line` holds.
    ReadLines,
}

/// The state of a stream that reads a text file in batches of lines,
/// applying a text processor, when there is one, to each line.
pub struct BatchReader<P> {
    batch_size: usize,
    processor: Option<P>,
    buffer: Vec<String>,
    eof_reached: bool,
    pending: Vec<String>,
    collecting: bool,
}

/// The lines of a list of strings, as characters.
pub open spec fn lines_view(v: Seq<String>) -> Seq<Seq<char>> {
    v.map_values(|s: String| s@)
}

impl<P: TextProcessor> BatchReader<P> {
    /// The number of lines in a batch.
    pub closed spec fn size(&self) -> usize {
        self.batch_size
    }

    /// Whether the end of the file (or a read error) was reached.
    pub closed spec fn at_eof(&self) -> bool {
        self.eof_reached
    }

    /// The lines of the batch being read.
    pub closed spec fn pending_lines(&self) -> Seq<Seq<char>> {
        lines_view(self.pending@)
    }

    /// The buffered lines.
    pub closed spec fn buffered(&self) -> Seq<Seq<char>> {
        lines_view(self.buffer@)
    }

    /// Whether a batch is being read.
    pub closed spec fn is_collecting(&self) -> bool {
        self.collecting
    }

    /// What a read line becomes in a batch: without its line ending, then
    /// processed by the processor when there is one.
    pub closed spec fn line_in_batch(&self, raw: Seq<char>) -> Seq<char> {
        match self.processor {
            Some(p) => p.spec_process(strip_line_ending_spec(raw)),
            None => strip_line_ending_spec(raw),
        }
    }

    /// Creates the state of a stream with batches of `batch_size` lines,
    /// no processor, nothing buffered and the end of the file not reached.
    pub fn new(batch_size: usize) -> (r: Self)
        ensures
            r.size() == batch_size,
            !r.at_eof(),
            r.buffered() == Seq::<Seq<char>>::empty(),
            r.pending_lines() == Seq::<Seq<char>>::empty(),
            !r.is_collecting(),
            forall|raw: Seq<char>| #[trigger] r.line_in_batch(raw) == strip_line_ending_spec(raw),
    {
        let r = BatchReader {
            batch_size,
            processor: None,
            buffer: Vec::new(),
            eof_reached: false,
            pending: Vec::new(),
            collecting: false,
        };
        assert(lines_view(r.buffer@) =~= Seq::empty());
        assert(lines_view(r.pending@) =~= Seq::empty());
        r
    }

    /// Sets the processor applied to each line.
    pub fn with_processor(self, processor: P) -> (r: Self)
        ensures
            r.size() == self.size(),
            r.at_eof() == self.at_eof(),
            r.buffered() == self.buffered(),
            r.pending_lines() == self.pending_lines(),
            r.is_collecting() == self.is_collecting(),
            forall|raw: Seq<char>| #[trigger] r.line_in_batch(raw) == processor.spec_process(strip_line_ending_spec(raw)),
    {
        BatchReader { processor: Some(processor), ..self }
    }

    /// Starts a request for the next batch: the stream is finished when
    /// the end of the file was reached and nothing is buffered; buffered
    /// lines are handed out first; otherwise lines are to be read.
    pub fn begin(&mut self) -> (step: BatchStep)
        ensures
            final(self).size() == old(self).size(),
            final(self).at_eof() == old(self).at_eof(),
            forall|raw: Seq<char>| #[trigger] final(self).line_in_batch(raw) == old(self).line_in_batch(raw),
            old(self).at_eof() && old(self).buffered().len() == 0 ==> step is Finished && final(self).buffered() == old(self).buffered() && !final(self).is_collecting(),
            old(self).buffered().len() > 0 ==> (step matches BatchStep::Ready(b) && lines_view(b@) == old(self).buffered()) && final(self).buffered().len() == 0 && !final(self).is_collecting(),
            !old(self).at_eof() && old(self).buffered().len() == 0 ==> step is ReadLines && final(self).is_collecting() && final(self).pending_lines().len() == 0 && final(self).buffered().len() == 0,
    {
        if self.eof_reached && self.buffer.len() == 0 {
            self.collecting = false;
            return BatchStep::Finished;
        }
        if self.buffer.len() > 0 {
            let mut b: Vec<String> = Vec::new();
            std::mem::swap(&mut b, &mut self.buffer);
            self.collecting = false;
            assert(lines_view(self.buffer@) =~= Seq::empty());
            return BatchStep::Ready(b);
        }
        self.pending = Vec::new();
        self.collecting = true;
        assert(lines_view(self.pending@) =~= Seq::empty());
        BatchStep::ReadLines
    }

    /// Whether another line is to be read for the batch under way.
    pub fn wants_line(&self) -> (b: bool)
        ensures
            b == (self.is_collecting() && self.pending_lines().len() < self.size()),
    {
        self.collecting && self.pending.len() < self.batch_size
    }

    /// Handles the outcome of a read: a line joins the batch (see
    /// `line_in_batch`); the end of the file or a failure ends the batch
    /// and marks the end of the file as reached.
    pub fn on_read(&mut self, outcome: ReadOutcome)
        ensures
            final(self).size() == old(self).size(),
            final(self).buffered() == old(self).buffered(),
            forall|raw: Seq<char>| #[trigger] final(self).line_in_batch(raw) == old(self).line_in_batch(raw),
            match outcome {
                ReadOutcome::Line(l) => {
                    &&& final(self).pending_lines() == old(self).pending_lines().push(old(self).line_in_batch(l@))
                    &&& final(self).at_eof() == old(self).at_eof()
                    &&& final(self).is_collecting() == old(self).is_collecting()
                },
                _ => {
                    &&& final(self).pending_lines() == old(self).pending_lines()
                    &&& final(self).at_eof()
                    &&& !final(self).is_collecting()
                },
            },
    {
        match outcome {
            ReadOutcome::Line(l) => {
                let stripped = strip_line_ending(l.as_str());
                let line = match &self.processor {
                    Some(p) => p.process(stripped.as_str()),
                    None => stripped,
                };
                let ghost before = self.pending@;
                self.pending.push(line);
                assert(lines_view(self.pending@) =~= lines_view(before).push(line@));
            }
            _ => {
                self.eof_reached = true;
                self.collecting = false;
            }
        }
    }

    /// Ends the batch under way: its lines, or `None` when there are none.
    pub fn finish(&mut self) -> (r: Option<Vec<String>>)
        ensures
            final(self).size() == old(self).size(),
            final(self).at_eof() == old(self).at_eof(),
            final(self).buffered() == old(self).buffered(),
            forall|raw: Seq<char>| #[trigger] final(self).line_in_batch(raw) == old(self).line_in_batch(raw),
            !final(self).is_collecting(),
            final(self).pending_lines().len() == 0,
            old(self).pending_lines().len() == 0 ==> r is None,
            old(self).pending_lines().len() > 0 ==> (r matches Some(b) && lines_view(b@) == old(self).pending_lines()),
    {
        let mut b: Vec<String> = Vec::new();
        std::mem::swap(&mut b, &mut self.pending);
        self.collecting = false;
        assert(lines_view(self.pending@) =~= Seq::empty());
        if b.len() == 0 {
            None
        } else {
            Some(b)
        }
    }
}

} // verus!
