//! The durable sink's plan of lines: the fixed header once, when the sink
//! starts, then one line per row of each chunk message, in the order the
//! messages are handled. Writing and flushing the lines is the owner's part.
use vstd::prelude::*;
use vstd::string::StringExecFns;

use crate::config::CSV_HEADER;
use crate::partition::flatten;

verus! {

/// The header line of the output.
pub open spec fn header() -> Seq<char> {
    CSV_HEADER@
}

/// A row's output line: the period label, a comma, then the row's text.
pub open spec fn row_line(period: Seq<char>, row: Seq<char>) -> Seq<char> {
    period + seq![','] + row
}

/// The output lines of a chunk message, one per row, in row order.
pub open spec fn chunk_lines(period: Seq<char>, rows: Seq<Seq<char>>) -> Seq<Seq<char>> {
    rows.map_values(|r: Seq<char>| row_line(period, r))
}

/// The views of a sequence of strings.
pub open spec fn string_views(v: Seq<String>) -> Seq<Seq<char>> {
    v.map_values(|s: String| s@)
}

/// What the sink has sent to its target, as mathematical values.
pub struct SinkModel {
    /// Whether the target was created and the header written.
    pub started: bool,
    /// The line lists of the chunk messages handled since, in order.
    pub messages: Seq<Seq<Seq<char>>>,
    /// Every line sent to the target, in order.
    pub lines: Seq<Seq<char>>,
}

impl SinkModel {
    /// The header comes first, exactly once, and every later line belongs
    /// to a handled message, in handling order.
    pub open spec fn inv(self) -> bool {
        if self.started {
            self.lines == seq![header()] + flatten(self.messages)
        } else {
            self.lines.len() == 0 && self.messages.len() == 0
        }
    }

    /// Starting writes the header, once.
    pub open spec fn start(self) -> Self {
        if self.started {
            self
        } else {
            SinkModel { started: true, messages: seq![], lines: seq![header()] }
        }
    }

    /// Handling a chunk message appends its lines; before the start there
    /// is no target, and nothing is written.
    pub open spec fn handle(self, period: Seq<char>, rows: Seq<Seq<char>>) -> Self {
        if self.started {
            SinkModel {
                started: true,
                messages: self.messages.push(chunk_lines(period, rows)),
                lines: self.lines + chunk_lines(period, rows),
            }
        } else {
            self
        }
    }
}

/// Starting and handling keep the header first and once.
pub proof fn lemma_sink_inv(m: SinkModel, period: Seq<char>, rows: Seq<Seq<char>>)
    requires
        m.inv(),
    ensures
        m.start().inv(),
        m.handle(period, rows).inv(),
{
    assert(flatten(Seq::<Seq<Seq<char>>>::empty()) == Seq::<Seq<char>>::empty());
    assert(seq![header()] + flatten(Seq::<Seq<Seq<char>>>::empty()) =~= seq![header()]);
    if m.started {
        crate::partition::lemma_flatten_push(m.messages, chunk_lines(period, rows));
        assert(m.lines + chunk_lines(period, rows) =~= seq![header()] + flatten(
            m.messages.push(chunk_lines(period, rows)),
        ));
    }
}

/// Header invariant. Once the sink has started, the first line it sent is
/// the header, and no later line comes from anything but a handled message.
pub proof fn lemma_header_first(m: SinkModel)
    requires
        m.inv(),
        m.started,
    ensures
        m.lines.len() >= 1,
        m.lines[0] == header(),
        m.lines.skip(1) == flatten(m.messages),
{
    assert(m.lines.skip(1) =~= flatten(m.messages));
}

/// Ordering. Two chunk messages handled in the order A then B leave all of
/// A's lines, in row order, before any of B's.
pub proof fn lemma_sink_order(
    m: SinkModel,
    period_a: Seq<char>,
    rows_a: Seq<Seq<char>>,
    period_b: Seq<char>,
    rows_b: Seq<Seq<char>>,
)
    requires
        m.started,
    ensures
        m.handle(period_a, rows_a).handle(period_b, rows_b).lines == m.lines + chunk_lines(
            period_a,
            rows_a,
        ) + chunk_lines(period_b, rows_b),
{
}

/// The sink's state. One owner handles its messages one at a time, in
/// mailbox order; that alone orders the writes.
pub struct CsvSink {
    started: bool,
    messages: Ghost<Seq<Seq<Seq<char>>>>,
    lines: Ghost<Seq<Seq<char>>>,
}

impl View for CsvSink {
    type V = SinkModel;

    closed spec fn view(&self) -> SinkModel {
        SinkModel { started: self.started, messages: self.messages@, lines: self.lines@ }
    }
}

/// The output lines of a chunk message: for each row, the period label, a
/// comma and the row's text.
pub fn period_lines(period: &str, rows: &Vec<String>) -> (r: Vec<String>)
    ensures
        string_views(r@) == chunk_lines(period@, string_views(rows@)),
{
    let mut out: Vec<String> = Vec::with_capacity(rows.len());
    let mut i: usize = 0;
    while i < rows.len()
        invariant
            i <= rows@.len(),
            string_views(out@) == chunk_lines(period@, string_views(rows@)).take(i as int),
        decreases rows@.len() - i,
    {
        let mut line = String::from_str(period);
        line.append(",");
        line.append(rows[i].as_str());
        proof {
            reveal_strlit(",");
            assert(line@ =~= row_line(period@, rows@[i as int]@));
        }
        let ghost before = string_views(out@);
        let ghost line_view = line@;
        out.push(line);
        proof {
            assert(string_views(out@) =~= before.push(line_view));
            assert(chunk_lines(period@, string_views(rows@)).take(i + 1) =~= chunk_lines(
                period@,
                string_views(rows@),
            ).take(i as int).push(line_view));
        }
        i = i + 1;
    }
    proof {
        assert(chunk_lines(period@, string_views(rows@)).take(i as int) =~= chunk_lines(
            period@,
            string_views(rows@),
        ));
    }
    out
}

impl CsvSink {
    /// A sink that has not started: nothing is written yet.
    pub fn new() -> (r: Self)
        ensures
            r@.inv(),
            !r@.started,
            r@.lines.len() == 0,
    {
        CsvSink { started: false, messages: Ghost(Seq::empty()), lines: Ghost(Seq::empty()) }
    }

    /// Whether the header has been written.
    pub fn is_started(&self) -> (r: bool)
        ensures
            r == self@.started,
    {
        self.started
    }

    /// Starts the sink: returns the lines to write to the freshly created
    /// target, which are the header alone, or nothing where the sink had
    /// started already.
    pub fn start(&mut self) -> (r: Vec<String>)
        requires
            old(self)@.inv(),
        ensures
            final(self)@ == old(self)@.start(),
            final(self)@.inv(),
            final(self)@.lines == old(self)@.lines + string_views(r@),
    {
        proof {
            lemma_sink_inv(self@, seq![], seq![]);
        }
        if self.started {
            proof {
                assert(self@.lines + string_views(Seq::<String>::empty()) =~= self@.lines);
            }
            Vec::new()
        } else {
            let header_line = String::from_str(CSV_HEADER);
            let mut out: Vec<String> = Vec::new();
            out.push(header_line);
            self.started = true;
            proof {
                self.messages@ = Seq::empty();
                self.lines@ = seq![header()];
                assert(string_views(out@) =~= seq![header()]);
                assert(old(self)@.lines + string_views(out@) =~= seq![header()]);
            }
            out
        }
    }

    /// Handles one chunk message: returns the lines to append to the target,
    /// one per row in row order, or nothing before the start.
    pub fn handle(&mut self, period: &str, rows: &Vec<String>) -> (r: Vec<String>)
        requires
            old(self)@.inv(),
        ensures
            final(self)@ == old(self)@.handle(period@, string_views(rows@)),
            final(self)@.inv(),
            final(self)@.lines == old(self)@.lines + string_views(r@),
            old(self)@.started ==> string_views(r@) == chunk_lines(period@, string_views(rows@)),
    {
        proof {
            lemma_sink_inv(self@, period@, string_views(rows@));
        }
        if !self.started {
            proof {
                assert(self@.lines + string_views(Seq::<String>::empty()) =~= self@.lines);
            }
            return Vec::new();
        }
        let out = period_lines(period, rows);
        proof {
            let cl = chunk_lines(period@, string_views(rows@));
            self.messages@ = self.messages@.push(cl);
            self.lines@ = self.lines@ + cl;
        }
        out
    }
}

} // verus!
