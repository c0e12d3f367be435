//! Process-wide configuration: the fixed constants, the command-line
//! arguments and the configuration built from them at startup.
use time::format_description::well_known::Rfc3339;
use time::OffsetDateTime;
use vstd::prelude::*;
use vstd::string::{StrSliceExecFns, StringExecFns};

use crate::partition::{
    chunk_count, chunk_symbols, chunks_of, expected_chunks, par_chunk_symbols, vec_views,
};
use crate::sink::string_views;

verus! {

/// Seconds between two cycles.
pub const TICK_INTERVAL_SECS: u64 = 5;

/// Seconds granted to in-flight pipelines after a shutdown request.
pub const SHUTDOWN_INTERVAL_SECS: u64 = 2;

/// Number of symbols in one chunk.
pub const CHUNK_SIZE: usize = 5;

/// Number of worker threads of the parallel chunking variant.
pub const NUM_THREADS: usize = 4;

/// Window of the trailing moving average.
pub const WINDOW_SIZE: usize = 30;

/// Path of the output file.
pub const CSV_FILE_PATH: &'static str = "./output.csv";

/// First line of the output file.
pub const CSV_HEADER: &'static str = "period start,symbol,price,change %,min,max,30d avg";

/// Capacity of every actor's mailbox.
pub const ACTOR_CHANNEL_CAPACITY: usize = 1;

/// Capacity of the shutdown channel.
pub const SHUTDOWN_CHANNEL_CAPACITY: usize = 1;

/// Address the query server listens on.
pub const WEB_SERVER_ADDRESS: &'static str = "127.0.0.1:3000";

/// The tail buffer's capacity, in batches.
pub const TAIL_BUFFER_SIZE: usize = 10;

/// How a run partitions and processes the symbol universe.
#[derive(Clone, Copy, Debug, PartialEq, Eq, Structural)]
pub enum ImplementationVariant {
    MyActorsNoRayon,
    MyActorsRayon,
    ActixActorsNoRayon,
    ActixActorsRayon,
    NoActorsNoRayon,
    NoActorsRayon,
}

impl ImplementationVariant {
    /// Whether the variant chunks the symbols with rayon.
    pub open spec fn spec_uses_rayon(&self) -> bool {
        self is MyActorsRayon || self is ActixActorsRayon || self is NoActorsRayon
    }

    /// Whether the variant chunks the symbols with rayon.
    #[verifier::when_used_as_spec(spec_uses_rayon)]
    pub fn uses_rayon(&self) -> (r: bool)
        ensures
            r == self.spec_uses_rayon(),
    {
        match self {
            ImplementationVariant::MyActorsRayon
            | ImplementationVariant::ActixActorsRayon
            | ImplementationVariant::NoActorsRayon => true,
            _ => false,
        }
    }
}

/// The command-line arguments.
#[derive(Debug)]
pub struct Args {
    /// Start of the period, in RFC 3339.
    pub from: String,
    /// Comma-separated symbols.
    pub symbols: String,
    /// Implementation variant.
    pub variant: ImplementationVariant,
}

/// The fields of `s` between the occurrences of `sep`, in order: one more
/// field than there are separators, empty fields included.
pub open spec fn split_on(s: Seq<char>, sep: char) -> Seq<Seq<char>>
    decreases s.len(),
{
    if s.len() == 0 {
        seq![seq![]]
    } else if s.last() == sep {
        split_on(s.drop_last(), sep).push(seq![])
    } else {
        let p = split_on(s.drop_last(), sep);
        p.update(p.len() - 1, p.last().push(s.last()))
    }
}

/// Splits the comma-separated symbol list into its symbols.
pub fn split_symbols(s: &str) -> (r: Vec<String>)
    ensures
        string_views(r@) == split_on(s@, ','),
{
    let n = s.unicode_len();
    let mut out: Vec<String> = Vec::new();
    let mut start: usize = 0;
    let mut i: usize = 0;
    proof {
        assert(s@.take(0) =~= Seq::<char>::empty());
        assert(string_views(out@).push(s@.subrange(0, 0)) =~= seq![seq![]]);
    }
    while i < n
        invariant
            n == s@.len(),
            start <= i <= n,
            split_on(s@.take(i as int), ',') == string_views(out@).push(
                s@.subrange(start as int, i as int),
            ),
        decreases n - i,
    {
        let c = s.get_char(i);
        let ghost prefix = s@.take(i + 1);
        proof {
            assert(prefix.drop_last() =~= s@.take(i as int));
            assert(prefix.last() == c);
        }
        if c == ',' {
            let field = String::from_str(s.substring_char(start, i));
            let ghost before = string_views(out@);
            out.push(field);
            proof {
                assert(string_views(out@) =~= before.push(s@.subrange(start as int, i as int)));
            }
            start = i + 1;
            proof {
                assert(split_on(prefix, ',') == split_on(s@.take(i as int), ',').push(seq![]));
                assert(s@.subrange(start as int, i + 1) =~= Seq::<char>::empty());
                assert(split_on(prefix, ',') =~= string_views(out@).push(
                    s@.subrange(start as int, i + 1),
                ));
            }
        } else {
            proof {
                let p = split_on(s@.take(i as int), ',');
                assert(split_on(prefix, ',') == p.update(p.len() - 1, p.last().push(c)));
                assert(s@.subrange(start as int, i + 1) =~= s@.subrange(start as int, i as int).push(c));
                assert(p.update(p.len() - 1, p.last().push(c)) =~= string_views(out@).push(
                    s@.subrange(start as int, i + 1),
                ));
            }
        }
        i = i + 1;
    }
    let last = String::from_str(s.substring_char(start, n));
    let ghost before = string_views(out@);
    out.push(last);
    proof {
        assert(s@.take(n as int) =~= s@);
        assert(string_views(out@) =~= before.push(s@.subrange(start as int, n as int)));
    }
    out
}

/// Whether time's RFC 3339 parser accepts the text.
pub uninterp spec fn rfc3339_accepts(s: Seq<char>) -> bool;

#[verifier::external_type_specification]
#[verifier::external_body]
pub struct ExOffsetDateTime(OffsetDateTime);

/// Relies on time's `OffsetDateTime::parse` with the `Rfc3339` description:
/// whether it succeeds depends on the text alone.
#[verifier::external_body]
fn parse_rfc3339(s: &str) -> (r: Option<OffsetDateTime>)
    ensures
        r.is_some() == rfc3339_accepts(s@),
{
    OffsetDateTime::parse(s, &Rfc3339).ok()
}

/// Relies on time's `OffsetDateTime::format` with the `Rfc3339` description.
#[verifier::external_body]
fn format_rfc3339(t: OffsetDateTime) -> (r: Option<String>) {
    t.format(&Rfc3339).ok()
}

/// Why a configuration was refused at startup.
#[derive(Clone, Copy, Debug, PartialEq, Eq, Structural)]
pub enum ConfigError {
    /// The chunk size is zero.
    ZeroChunkSize,
    /// The start of the period is not RFC 3339.
    InvalidStart,
}

/// The configuration of a run, fixed at startup and handed to the driver.
pub struct Config {
    /// Start of the period.
    pub from: OffsetDateTime,
    /// Start of the period as written in every output line.
    pub period: String,
    /// The symbol universe.
    pub symbols: Vec<String>,
    /// The symbol universe, split into the chunks of one cycle.
    pub chunks: Vec<Vec<String>>,
    /// Number of chunks of one cycle.
    pub expected_chunks: usize,
}

impl Config {
    /// Whether the configuration is the one `assemble` gives for these
    /// symbols and chunk size.
    pub open spec fn describes(&self, symbols: Seq<char>, chunk_size: nat) -> bool {
        &&& string_views(self.symbols@) == split_on(symbols, ',')
        &&& vec_views(self.chunks@) == chunks_of(self.symbols@, chunk_size)
        &&& self.expected_chunks == chunk_count(self.symbols@.len(), chunk_size)
    }

    /// Builds the configuration from the parsed start of the period, its
    /// label as written back in RFC 3339 (`None` where that failed: the
    /// start is then labelled with the text it was given as) and the
    /// arguments. The symbols are split at commas and cut into chunks of
    /// `chunk_size`, with rayon where the variant asks for it.
    pub fn assemble(
        from: OffsetDateTime,
        label: Option<String>,
        args: &Args,
        chunk_size: usize,
    ) -> (r: Result<Config, ConfigError>)
        ensures
            chunk_size == 0 ==> r == Err::<Config, ConfigError>(ConfigError::ZeroChunkSize),
            chunk_size > 0 ==> r is Ok,
            r matches Ok(c) ==> c.describes(args.symbols@, chunk_size as nat) && c.from == from
                && c.period@ == match label {
                Some(l) => l@,
                None => args.from@,
            },
    {
        if chunk_size == 0 {
            return Err(ConfigError::ZeroChunkSize);
        }
        let period = match label {
            Some(l) => l,
            None => String::from_str(args.from.as_str()),
        };
        let symbols = split_symbols(args.symbols.as_str());
        let chunks = if args.variant.uses_rayon() {
            par_chunk_symbols(symbols.as_slice(), chunk_size)
        } else {
            chunk_symbols(symbols.as_slice(), chunk_size)
        };
        let expected_chunks = expected_chunks(symbols.len(), chunk_size);
        Ok(Config { from, period, symbols, chunks, expected_chunks })
    }

    /// Builds the configuration from the arguments. It fails exactly where
    /// the chunk size is zero or the start of the period is not RFC 3339.
    pub fn new(args: &Args, chunk_size: usize) -> (r: Result<Config, ConfigError>)
        ensures
            chunk_size == 0 ==> r == Err::<Config, ConfigError>(ConfigError::ZeroChunkSize),
            chunk_size > 0 && !rfc3339_accepts(args.from@) ==> r == Err::<Config, ConfigError>(
                ConfigError::InvalidStart,
            ),
            chunk_size > 0 && rfc3339_accepts(args.from@) ==> r is Ok,
            r matches Ok(c) ==> c.describes(args.symbols@, chunk_size as nat),
    {
        if chunk_size == 0 {
            return Err(ConfigError::ZeroChunkSize);
        }
        match parse_rfc3339(args.from.as_str()) {
            None => Err(ConfigError::InvalidStart),
            Some(from) => {
                let label = format_rfc3339(from);
                Config::assemble(from, label, args, chunk_size)
            },
        }
    }
}

} // verus!
