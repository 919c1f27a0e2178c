//! The messages and catalogs of the Airbyte protocol, and the rules that a
//! catalog has to keep.

use crate::errors::{ValidationCode, ValidationError};
use crate::json::Json;
use vstd::prelude::*;

verus! {

/// How a stream is read.
#[derive(Clone, Copy, Debug, PartialEq, Eq, Structural)]
pub enum SyncMode {
    Incremental,
    FullRefresh,
}

/// A stream as a connector describes it.
#[derive(Debug, PartialEq, Eq)]
pub struct Stream {
    pub name: String,
    pub json_schema: Json,
    pub supported_sync_modes: Option<Vec<SyncMode>>,
    pub source_defined_cursor: Option<bool>,
    pub default_cursor_field: Option<Vec<String>>,
    pub source_defined_primary_key: Option<Vec<Vec<String>>>,
    pub namespace: Option<String>,
}

/// How records are written at the destination.
#[derive(Clone, Copy, Debug, PartialEq, Eq, Structural)]
pub enum DestinationSyncMode {
    Append,
    Overwrite,
    AppendDedup,
}

/// The name of a field and the pointer to where it lies in a document.
#[derive(Debug, PartialEq, Eq)]
pub struct Projection {
    pub field: String,
    pub ptr: String,
}

/// A stream as it is to be read.
#[derive(Debug, PartialEq, Eq)]
pub struct ConfiguredStream {
    pub stream: Stream,
    pub sync_mode: SyncMode,
    pub destination_sync_mode: DestinationSyncMode,
    pub cursor_field: Option<Vec<String>>,
    pub primary_key: Option<Vec<Vec<String>>>,
    pub projections: Vec<Projection>,
}

/// The streams that a connector offers.
#[derive(Debug, PartialEq, Eq)]
pub struct Catalog {
    pub streams: Vec<Stream>,
}

/// A range of keys, both ends included.
#[derive(Clone, Copy, Debug, PartialEq, Eq, Structural)]
pub struct Range {
    pub begin: u32,
    pub end: u32,
}

/// The streams that a connector is to read.
#[derive(Debug, PartialEq, Eq)]
pub struct ConfiguredCatalog {
    pub streams: Vec<ConfiguredStream>,
    pub range: Option<Range>,
}

/// Whether a connection could be made.
#[derive(Clone, Copy, Debug, PartialEq, Eq, Structural)]
pub enum Status {
    Succeeded,
    Failed,
}

/// What a connector answers when it is asked to check its configuration.
#[derive(Debug, PartialEq, Eq)]
pub struct ConnectionStatus {
    pub status: Status,
    pub message: Option<String>,
}

/// A document that a connector read from a stream.
#[derive(Debug, PartialEq, Eq)]
pub struct Record {
    pub stream: String,
    pub data: Json,
    pub emitted_at: i64,
    pub namespace: Option<String>,
}

/// How grave a connector holds one of its log lines to be.
#[derive(Clone, Copy, Debug, PartialEq, Eq, Structural)]
pub enum LogLevel {
    Trace,
    Debug,
    Info,
    Warn,
    Error,
    Fatal,
}

/// The level at which the adaptor passes a log line on.
#[derive(Clone, Copy, Debug, PartialEq, Eq, Structural)]
pub enum TraceLevel {
    Trace,
    Debug,
    Info,
    Warn,
    Error,
}

/// A log line of a connector.
#[derive(Debug, PartialEq, Eq)]
pub struct Log {
    pub level: LogLevel,
    pub message: String,
}

/// The level at which the adaptor passes on a log line of each level:
/// its own, but that a fatal line is passed on as an error.
pub open spec fn trace_level(level: LogLevel) -> TraceLevel {
    match level {
        LogLevel::Trace => TraceLevel::Trace,
        LogLevel::Debug => TraceLevel::Debug,
        LogLevel::Info => TraceLevel::Info,
        LogLevel::Warn => TraceLevel::Warn,
        LogLevel::Error => TraceLevel::Error,
        LogLevel::Fatal => TraceLevel::Error,
    }
}

impl Log {
    /// The level and the words with which the line goes to the adaptor's own log.
    pub fn log(&self) -> (r: (TraceLevel, &str))
        ensures
            r.0 == trace_level(self.level),
            r.1@ == self.message@,
    {
        let level = match self.level {
            LogLevel::Trace => TraceLevel::Trace,
            LogLevel::Debug => TraceLevel::Debug,
            LogLevel::Info => TraceLevel::Info,
            LogLevel::Warn => TraceLevel::Warn,
            LogLevel::Error | LogLevel::Fatal => TraceLevel::Error,
        };
        (level, self.message.as_str())
    }
}

/// The state from which a connector can go on where it stopped.
#[derive(Debug, PartialEq, Eq)]
pub struct State {
    /// The state, as the JSON text that the connector wrote.
    pub data: String,
    /// Whether the state is a merge patch to the state before it.
    pub merge: Option<bool>,
}

/// What a connector says of itself.
#[derive(Debug, PartialEq, Eq)]
pub struct Spec {
    pub documentation_url: Option<String>,
    pub changelog_url: Option<String>,
    pub connection_specification: Json,
    pub supports_incremental: Option<bool>,
    pub supported_destination_sync_modes: Option<Vec<DestinationSyncMode>>,
    pub supports_normalization: Option<bool>,
    pub supports_dbt: Option<bool>,
    pub auth_specification: Option<Json>,
    pub advanced_auth: Option<Json>,
}

/// What a message of a connector holds.
#[derive(Clone, Copy, Debug, PartialEq, Eq, Structural)]
pub enum MessageType {
    Record,
    State,
    Log,
    Spec,
    ConnectionStatus,
    Catalog,
}

/// One line of a connector's output.
#[derive(Debug, PartialEq, Eq)]
pub struct Message {
    pub message_type: MessageType,
    pub log: Option<Log>,
    pub state: Option<State>,
    pub record: Option<Record>,
    pub connection_status: Option<ConnectionStatus>,
    pub spec: Option<Spec>,
    pub catalog: Option<Catalog>,
}

/// How one stream of a capture is to be read.
#[derive(Debug, PartialEq, Eq)]
pub struct ResourceSpec {
    pub stream: String,
    pub namespace: Option<String>,
    pub sync_mode: SyncMode,
    pub cursor_field: Option<Vec<String>>,
}

/// A stream that names the modes it supports names at least one.
pub open spec fn stream_ok(s: Stream) -> bool {
    s.supported_sync_modes matches Some(modes) ==> modes@.len() >= 1
}

/// The mode in which a stream is to be read is among those it supports.
pub open spec fn mode_supported(s: ConfiguredStream) -> bool {
    s.stream.supported_sync_modes matches Some(modes) && modes@.contains(s.sync_mode)
}

/// The rules that the stream at place `i` breaks.
pub open spec fn configured_stream_failures(s: ConfiguredStream, i: usize) -> Seq<ValidationError> {
    (if stream_ok(s.stream) {
        Seq::<ValidationError>::empty()
    } else {
        seq![ValidationError { stream: Some(i), code: ValidationCode::Length }]
    }) + (if mode_supported(s) {
        Seq::<ValidationError>::empty()
    } else {
        seq![ValidationError { stream: Some(i), code: ValidationCode::SyncModeNotSupported }]
    })
}

/// The rules that the first `n` streams break.
pub open spec fn configured_streams_failures(streams: Seq<ConfiguredStream>, n: int) -> Seq<
    ValidationError,
>
    decreases n,
{
    if n <= 0 || n > streams.len() {
        Seq::empty()
    } else {
        configured_streams_failures(streams, n - 1) + configured_stream_failures(
            streams[n - 1],
            (n - 1) as usize,
        )
    }
}

/// A range does not begin after its end.
pub open spec fn range_ok(r: Range) -> bool {
    r.begin <= r.end
}

/// The rules that a configured catalog breaks: it holds a stream; each
/// stream keeps its own rules; the range, if there is one, does not begin
/// after its end.
pub open spec fn configured_catalog_failures(c: ConfiguredCatalog) -> Seq<ValidationError> {
    (if c.streams@.len() >= 1 {
        Seq::<ValidationError>::empty()
    } else {
        seq![ValidationError { stream: None, code: ValidationCode::Length }]
    }) + configured_streams_failures(c.streams@, c.streams@.len() as int) + (match c.range {
        Some(r) if !range_ok(r) => seq![
            ValidationError { stream: None, code: ValidationCode::RangeOrder },
        ],
        _ => Seq::<ValidationError>::empty(),
    })
}

/// The rules that the first `n` streams of a catalog break.
pub open spec fn streams_failures(streams: Seq<Stream>, n: int) -> Seq<ValidationError>
    decreases n,
{
    if n <= 0 || n > streams.len() {
        Seq::empty()
    } else {
        streams_failures(streams, n - 1) + (if stream_ok(streams[n - 1]) {
            Seq::<ValidationError>::empty()
        } else {
            seq![ValidationError { stream: Some((n - 1) as usize), code: ValidationCode::Length }]
        })
    }
}

/// The rules that a message breaks: those that its catalog breaks, if it has one.
pub open spec fn message_failures(m: Message) -> Seq<ValidationError> {
    match m.catalog {
        Some(c) => streams_failures(c.streams@, c.streams@.len() as int),
        None => Seq::empty(),
    }
}

impl Stream {
    /// Whether the stream keeps its rule.
    pub fn validate(&self) -> (r: bool)
        ensures
            r == stream_ok(*self),
    {
        match &self.supported_sync_modes {
            Some(modes) => modes.len() >= 1,
            None => true,
        }
    }
}

impl ConfiguredStream {
    /// Whether the mode in which the stream is to be read is among those it supports.
    pub fn validate_configured_stream(&self) -> (r: Result<(), ValidationCode>)
        ensures
            r is Ok <==> mode_supported(*self),
            r is Err ==> r->Err_0 == ValidationCode::SyncModeNotSupported,
    {
        match &self.stream.supported_sync_modes {
            Some(modes) => {
                let mut i: usize = 0;
                while i < modes.len()
                    invariant
                        i <= modes@.len(),
                        self.stream.supported_sync_modes == Some(*modes),
                        forall|j: int| 0 <= j < i ==> modes@[j] != self.sync_mode,
                    decreases modes@.len() - i,
                {
                    if modes[i] == self.sync_mode {
                        assert(modes@[i as int] == self.sync_mode);
                        return Ok(());
                    }
                    i = i + 1;
                }
                Err(ValidationCode::SyncModeNotSupported)
            },
            None => Err(ValidationCode::SyncModeNotSupported),
        }
    }

    /// The rules that the stream, standing at place `i`, breaks.
    pub fn validate(&self, i: usize) -> (r: Vec<ValidationError>)
        ensures
            r@ == configured_stream_failures(*self, i),
    {
        let mut out: Vec<ValidationError> = Vec::new();
        if !self.stream.validate() {
            out.push(ValidationError { stream: Some(i), code: ValidationCode::Length });
        }
        if self.validate_configured_stream().is_err() {
            out.push(ValidationError { stream: Some(i), code: ValidationCode::SyncModeNotSupported });
        }
        assert(out@ =~= configured_stream_failures(*self, i));
        out
    }
}

impl Range {
    /// Whether the range does not begin after its end.
    pub fn validate_range(&self) -> (r: Result<(), ValidationCode>)
        ensures
            r is Ok <==> range_ok(*self),
            r is Err ==> r->Err_0 == ValidationCode::RangeOrder,
    {
        if self.begin <= self.end {
            Ok(())
        } else {
            Err(ValidationCode::RangeOrder)
        }
    }
}

/// Appends the items of `more` to `out`.
fn append_failures(out: &mut Vec<ValidationError>, more: &Vec<ValidationError>)
    ensures
        final(out)@ == old(out)@ + more@,
{
    let mut i: usize = 0;
    while i < more.len()
        invariant
            i <= more@.len(),
            out@ == old(out)@ + more@.take(i as int),
        decreases more@.len() - i,
    {
        out.push(more[i]);
        assert(out@ =~= old(out)@ + more@.take(i + 1));
        i = i + 1;
    }
    assert(more@.take(more@.len() as int) =~= more@);
}

impl ConfiguredCatalog {
    /// Holds the catalog to its rules: `Ok` where it keeps them all, else
    /// the rules broken, in the order of the streams.
    pub fn validate(&self) -> (r: Result<(), Vec<ValidationError>>)
        ensures
            r is Ok <==> configured_catalog_failures(*self).len() == 0,
            r is Err ==> r->Err_0@ == configured_catalog_failures(*self),
    {
        let mut out: Vec<ValidationError> = Vec::new();
        if self.streams.len() < 1 {
            out.push(ValidationError { stream: None, code: ValidationCode::Length });
        }
        let ghost head = out@;
        let mut i: usize = 0;
        while i < self.streams.len()
            invariant
                i <= self.streams@.len(),
                out@ == head + configured_streams_failures(self.streams@, i as int),
            decreases self.streams@.len() - i,
        {
            let more = self.streams[i].validate(i);
            append_failures(&mut out, &more);
            assert(out@ =~= head + configured_streams_failures(self.streams@, i + 1));
            i = i + 1;
        }
        match &self.range {
            Some(r) => {
                if r.validate_range().is_err() {
                    out.push(ValidationError { stream: None, code: ValidationCode::RangeOrder });
                }
            },
            None => {},
        }
        assert(out@ =~= configured_catalog_failures(*self));
        if out.len() == 0 {
            Ok(())
        } else {
            Err(out)
        }
    }
}

impl Catalog {
    /// Holds the catalog to its rules.
    pub fn validate(&self) -> (r: Result<(), Vec<ValidationError>>)
        ensures
            r is Ok <==> streams_failures(self.streams@, self.streams@.len() as int).len() == 0,
            r is Err ==> r->Err_0@ == streams_failures(self.streams@, self.streams@.len() as int),
    {
        let mut out: Vec<ValidationError> = Vec::new();
        let mut i: usize = 0;
        while i < self.streams.len()
            invariant
                i <= self.streams@.len(),
                out@ == streams_failures(self.streams@, i as int),
            decreases self.streams@.len() - i,
        {
            if !self.streams[i].validate() {
                out.push(ValidationError { stream: Some(i), code: ValidationCode::Length });
            }
            assert(out@ =~= streams_failures(self.streams@, i + 1));
            i = i + 1;
        }
        if out.len() == 0 {
            Ok(())
        } else {
            Err(out)
        }
    }
}

impl Message {
    /// Holds the message to its rules.
    pub fn validate(&self) -> (r: Result<(), Vec<ValidationError>>)
        ensures
            r is Ok <==> message_failures(*self).len() == 0,
            r is Err ==> r->Err_0@ == message_failures(*self),
    {
        match &self.catalog {
            Some(c) => c.validate(),
            None => Ok(()),
        }
    }
}

/// The digit of base sixteen that stands for a number below sixteen.
pub open spec fn hex_digit(d: u32) -> char {
    if d == 0 {
        '0'
    } else if d == 1 {
        '1'
    } else if d == 2 {
        '2'
    } else if d == 3 {
        '3'
    } else if d == 4 {
        '4'
    } else if d == 5 {
        '5'
    } else if d == 6 {
        '6'
    } else if d == 7 {
        '7'
    } else if d == 8 {
        '8'
    } else if d == 9 {
        '9'
    } else if d == 10 {
        'a'
    } else if d == 11 {
        'b'
    } else if d == 12 {
        'c'
    } else if d == 13 {
        'd'
    } else if d == 14 {
        'e'
    } else {
        'f'
    }
}

/// A number written with eight digits of base sixteen, the letters small.
pub open spec fn hex8(n: u32) -> Seq<char> {
    seq![
        hex_digit(n / 0x10000000),
        hex_digit((n / 0x1000000) % 16),
        hex_digit((n / 0x100000) % 16),
        hex_digit((n / 0x10000) % 16),
        hex_digit((n / 0x1000) % 16),
        hex_digit((n / 0x100) % 16),
        hex_digit((n / 0x10) % 16),
        hex_digit(n % 16),
    ]
}

fn hex_char(d: u32) -> (c: char)
    requires
        d < 16,
    ensures
        c == hex_digit(d),
{
    if d == 0 {
        '0'
    } else if d == 1 {
        '1'
    } else if d == 2 {
        '2'
    } else if d == 3 {
        '3'
    } else if d == 4 {
        '4'
    } else if d == 5 {
        '5'
    } else if d == 6 {
        '6'
    } else if d == 7 {
        '7'
    } else if d == 8 {
        '8'
    } else if d == 9 {
        '9'
    } else if d == 10 {
        'a'
    } else if d == 11 {
        'b'
    } else if d == 12 {
        'c'
    } else if d == 13 {
        'd'
    } else if d == 14 {
        'e'
    } else {
        'f'
    }
}

/// Writes a number with eight digits of base sixteen.
pub fn hex8_text(n: u32) -> (r: String)
    ensures
        r@ == hex8(n),
{
    let mut out = String::new();
    out.push(hex_char(n / 0x10000000));
    out.push(hex_char((n / 0x1000000) % 16));
    out.push(hex_char((n / 0x100000) % 16));
    out.push(hex_char((n / 0x10000) % 16));
    out.push(hex_char((n / 0x1000) % 16));
    out.push(hex_char((n / 0x100) % 16));
    out.push(hex_char((n / 0x10) % 16));
    out.push(hex_char(n % 16));
    assert(out@ =~= hex8(n));
    out
}

impl Range {
    /// The two ends of the range as they are written for the connector:
    /// each with eight digits of base sixteen.
    pub fn serialize(&self) -> (r: (String, String))
        ensures
            r.0@ == hex8(self.begin),
            r.1@ == hex8(self.end),
    {
        (hex8_text(self.begin), hex8_text(self.end))
    }
}

} // verus!
