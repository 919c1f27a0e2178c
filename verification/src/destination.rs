//! The Airbyte protocol as a destination connector speaks it, and the
//! rules of the connector that collects records and uploads them stream by
//! stream.

use crate::errors::describe;
use crate::json::Json;
use crate::text::{owned, same_text};
use vstd::prelude::*;

verus! {

/// What a target connector can be asked to do.
#[derive(Debug, PartialEq, Eq)]
pub enum TargetCommand {
    /// Output JSON specification for configuration.
    Spec(SpecCommand),
    /// Check JSON configuration.
    Check(CheckCommand),
    /// Write data to destination.
    Write(WriteCommand),
}

/// What a source connector can be asked to do.
#[derive(Debug, PartialEq, Eq)]
pub enum SourceCommand {
    /// Output JSON specification for configuration.
    Spec(SpecCommand),
    /// Check JSON configuration.
    Check(CheckCommand),
    /// Describe the structure of the data in the data store.
    Discover(DiscoverCommand),
    /// Extract data from the underlying data store and emit it.
    Read(ReadCommand),
}

/// The command to output the specification: it takes nothing.
#[derive(Debug, PartialEq, Eq)]
pub struct SpecCommand;

/// The command to check a configuration, with the path of the file that holds it.
#[derive(Debug, PartialEq, Eq)]
pub struct CheckCommand {
    pub config: String,
}

/// The command to describe the data, with the path of the configuration.
#[derive(Debug, PartialEq, Eq)]
pub struct DiscoverCommand {
    pub config: String,
}

/// The command to read, with the paths of the configuration, the catalog and the state.
#[derive(Debug, PartialEq, Eq)]
pub struct ReadCommand {
    pub config: String,
    pub catalog: String,
    pub state: String,
}

/// The command to write, with the paths of the configuration and the catalog.
#[derive(Debug, PartialEq, Eq)]
pub struct WriteCommand {
    pub config: String,
    pub catalog: String,
}

/// The types of the messages of the protocol.
#[derive(Clone, Copy, Debug, PartialEq, Eq, Structural)]
pub enum MessageType {
    Record,
    State,
    Log,
    Spec,
    ConnectionStatus,
    Catalog,
    Trace,
}

/// How records are written at the destination.
#[derive(Clone, Copy, Debug, PartialEq, Eq, Structural)]
pub enum DestinationSyncMode {
    Overwrite,
    Append,
}

/// How a stream is read.
#[derive(Clone, Copy, Debug, PartialEq, Eq, Structural)]
pub enum SyncMode {
    FullRefresh,
    Incremental,
}

/// What a connector says of itself.
#[derive(Debug, PartialEq, Eq)]
pub struct ConnectorSpecification {
    /// The version of the Airbyte protocol that the connector supports.
    pub protocol_version: Option<String>,
    pub connection_specification: Json,
    pub documentation_url: Option<String>,
    pub changelog_url: Option<String>,
    pub supports_normalization: Option<bool>,
    pub supports_incremental: Option<bool>,
    pub supports_dbt: Option<bool>,
    pub supported_destination_sync_modes: Option<Vec<DestinationSyncMode>>,
}

/// A stream and the schema of its records.
#[derive(Debug, PartialEq, Eq)]
pub struct AirbyteStream {
    pub name: String,
    pub json_schema: Json,
}

/// A stream as it is to be written.
#[derive(Debug, PartialEq, Eq)]
pub struct ConfiguredAirbyteStream {
    pub stream: AirbyteStream,
    pub sync_mode: SyncMode,
    pub cursor_field: Vec<String>,
    pub destination_sync_mode: DestinationSyncMode,
    pub primary_key: Json,
}

/// The streams that a connector is to write.
#[derive(Debug, PartialEq, Eq)]
pub struct AirbyteCatalog {
    pub streams: Vec<ConfiguredAirbyteStream>,
}

/// A record of a stream.
#[derive(Debug, PartialEq, Eq)]
pub struct AirbyteRecordMessage {
    pub namespace: Option<String>,
    pub stream: String,
    pub data: Json,
    pub emitted_at: u64,
}

/// The state of a source.
#[derive(Debug, PartialEq, Eq)]
pub struct AirbyteStateMessage {
    pub state: Json,
}

/// How grave a log line is.
#[derive(Clone, Copy, Debug, PartialEq, Eq, Structural)]
pub enum LogLevel {
    Fatal,
    Error,
    Warn,
    Info,
    Debug,
    Trace,
}

/// A log line.
#[derive(Debug, PartialEq, Eq)]
pub struct AirbyteLogMessage {
    pub level: LogLevel,
    pub message: String,
    pub stack_trace: Option<String>,
}

/// Whether a check succeeded.
#[derive(Clone, Copy, Debug, PartialEq, Eq, Structural)]
pub enum Status {
    Succeeded,
    Failed,
}

/// The answer to a check.
#[derive(Debug, PartialEq, Eq)]
pub struct AirbyteConnectionStatus {
    pub status: Status,
    pub message: Option<String>,
}

/// A message of the protocol, by what it holds.
#[derive(Debug, PartialEq, Eq)]
pub enum Message {
    Spec(ConnectorSpecification),
    Record(AirbyteRecordMessage),
    Log(AirbyteLogMessage),
    ConnectionStatus(AirbyteConnectionStatus),
}

/// A message of the protocol as it is written: its type, and under the
/// name of the type what it holds.
#[derive(Debug, PartialEq, Eq)]
pub struct AirbyteMessage {
    pub message_type: MessageType,
    pub spec: Option<ConnectorSpecification>,
    pub record: Option<AirbyteRecordMessage>,
    pub log: Option<AirbyteLogMessage>,
    pub connection_status: Option<AirbyteConnectionStatus>,
}

/// Why a message as written is none.
#[derive(Clone, Copy, Debug, PartialEq, Eq, Structural)]
pub enum ParseAirbyteMessageError {
    /// The message does not hold what its type says, or is of a type that
    /// holds nothing that a connector reads.
    MissingData,
}

impl ParseAirbyteMessageError {
    /// The words by which the failure is reported.
    pub fn message(&self) -> (r: String)
        ensures
            r@ == "missing data"@,
    {
        owned("missing data")
    }
}

/// A message as it is written.
pub open spec fn written(message: Message) -> AirbyteMessage {
    match message {
        Message::Spec(item) => AirbyteMessage {
            message_type: MessageType::Spec,
            spec: Some(item),
            record: None,
            log: None,
            connection_status: None,
        },
        Message::Record(item) => AirbyteMessage {
            message_type: MessageType::Record,
            spec: None,
            record: Some(item),
            log: None,
            connection_status: None,
        },
        Message::Log(item) => AirbyteMessage {
            message_type: MessageType::Log,
            spec: None,
            record: None,
            log: Some(item),
            connection_status: None,
        },
        Message::ConnectionStatus(item) => AirbyteMessage {
            message_type: MessageType::ConnectionStatus,
            spec: None,
            record: None,
            log: None,
            connection_status: Some(item),
        },
    }
}

/// The message that is read from a message as written: what stands under
/// the name of its type. There is none where nothing stands there, or the
/// type is one whose messages hold nothing that a connector reads.
pub open spec fn read(message: AirbyteMessage) -> Option<Message> {
    match message.message_type {
        MessageType::Spec => match message.spec {
            Some(item) => Some(Message::Spec(item)),
            None => None,
        },
        MessageType::Record => match message.record {
            Some(item) => Some(Message::Record(item)),
            None => None,
        },
        MessageType::Log => match message.log {
            Some(item) => Some(Message::Log(item)),
            None => None,
        },
        MessageType::ConnectionStatus => match message.connection_status {
            Some(item) => Some(Message::ConnectionStatus(item)),
            None => None,
        },
        _ => None,
    }
}

impl Message {
    /// The message as it is written.
    pub fn airbyte_message(self) -> (r: AirbyteMessage)
        ensures
            r == written(self),
    {
        match self {
            Message::Spec(item) => AirbyteMessage {
                message_type: MessageType::Spec,
                spec: Some(item),
                record: None,
                log: None,
                connection_status: None,
            },
            Message::Record(item) => AirbyteMessage {
                message_type: MessageType::Record,
                spec: None,
                record: Some(item),
                log: None,
                connection_status: None,
            },
            Message::Log(item) => AirbyteMessage {
                message_type: MessageType::Log,
                spec: None,
                record: None,
                log: Some(item),
                connection_status: None,
            },
            Message::ConnectionStatus(item) => AirbyteMessage {
                message_type: MessageType::ConnectionStatus,
                spec: None,
                record: None,
                log: None,
                connection_status: Some(item),
            },
        }
    }

    /// Reads a message from a message as written.
    pub fn try_from(message: AirbyteMessage) -> (r: Result<Message, ParseAirbyteMessageError>)
        ensures
            match r {
                Ok(m) => read(message) == Some(m),
                Err(e) => read(message) is None && e == ParseAirbyteMessageError::MissingData,
            },
    {
        let found = match message.message_type {
            MessageType::Spec => match message.spec {
                Some(item) => Some(Message::Spec(item)),
                None => None,
            },
            MessageType::Record => match message.record {
                Some(item) => Some(Message::Record(item)),
                None => None,
            },
            MessageType::Log => match message.log {
                Some(item) => Some(Message::Log(item)),
                None => None,
            },
            MessageType::ConnectionStatus => match message.connection_status {
                Some(item) => Some(Message::ConnectionStatus(item)),
                None => None,
            },
            _ => None,
        };
        match found {
            Some(m) => Ok(m),
            None => Err(ParseAirbyteMessageError::MissingData),
        }
    }
}

/// A message that is written and read again is the same message.
pub proof fn lemma_written_is_read(message: Message)
    ensures
        read(written(message)) == Some(message),
{
}

/// What a connector says of itself, given the schema of its configuration:
/// it overwrites at the destination, and reads on from where it stopped;
/// it normalizes nothing.
pub fn connector_specification(schema: Json) -> (r: ConnectorSpecification)
    ensures
        r.connection_specification == schema,
        r.protocol_version is None,
        r.changelog_url is None,
        r.documentation_url is Some && r.documentation_url->Some_0@ == "https://example.com"@,
        r.supports_incremental == Some(true),
        r.supports_normalization == Some(false),
        r.supports_dbt == Some(false),
        r.supported_destination_sync_modes is Some,
        r.supported_destination_sync_modes->Some_0@ == seq![DestinationSyncMode::Overwrite],
{
    let mut modes: Vec<DestinationSyncMode> = Vec::new();
    modes.push(DestinationSyncMode::Overwrite);
    ConnectorSpecification {
        protocol_version: None,
        connection_specification: schema,
        documentation_url: Some(owned("https://example.com")),
        changelog_url: None,
        supports_normalization: Some(false),
        supports_incremental: Some(true),
        supports_dbt: Some(false),
        supported_destination_sync_modes: Some(modes),
    }
}

/// What a connector answers when it is asked to check its configuration:
/// that it succeeded, or that it failed and why the configuration could not
/// be read.
pub fn check_status(config: Result<(), String>) -> (r: AirbyteConnectionStatus)
    ensures
        match config {
            Ok(_) => r.status == Status::Succeeded && r.message is None,
            Err(why) => r.status == Status::Failed && r.message == Some(why),
        },
{
    match config {
        Ok(_) => AirbyteConnectionStatus { status: Status::Succeeded, message: None },
        Err(why) => AirbyteConnectionStatus { status: Status::Failed, message: Some(why) },
    }
}

/// The address of the service that records are uploaded to, where the
/// configuration names none.
pub open spec fn default_api() -> Seq<char> {
    "https://app.field33.com/api/v1/"@
}

/// The configuration of the connector that uploads records.
#[derive(Debug, PartialEq, Eq)]
pub struct Config {
    /// The token by which the connector is known to the service.
    pub token: String,
    /// The organization that the records are uploaded for.
    pub organization: String,
    /// The address of the service, where it is not the usual one.
    pub api: Option<String>,
}

impl Config {
    /// The address of the service that records are uploaded to.
    pub fn url(&self) -> (r: String)
        ensures
            r@ == (match self.api {
                Some(url) => url@,
                None => default_api(),
            }),
    {
        match &self.api {
            Some(url) => url.clone(),
            None => owned("https://app.field33.com/api/v1/"),
        }
    }
}

/// The address of the service that records are uploaded to.
pub fn api_url(api: Option<String>) -> (r: String)
    ensures
        r@ == (match api {
            Some(url) => url@,
            None => default_api(),
        }),
{
    match api {
        Some(url) => url,
        None => owned("https://app.field33.com/api/v1/"),
    }
}

/// The path, below the address of the service, that the records of a
/// stream are uploaded to for an organization.
pub open spec fn import_path_of(organization: Seq<char>, stream: Seq<char>) -> Seq<char> {
    "organizations/"@ + organization + "/jsonlimport/"@ + stream
}

/// The path that the records of a stream are uploaded to.
pub fn import_path(organization: &str, stream: &str) -> (r: String)
    ensures
        r@ == import_path_of(organization@, stream@),
{
    let mut out = owned("organizations/");
    out.append(organization);
    out.append("/jsonlimport/");
    out.append(stream);
    out
}

/// The name under which the records of a stream are collected: the name
/// of the stream, after its namespace and `_` where it has one.
pub open spec fn batch_name(namespace: Option<String>, stream: Seq<char>) -> Seq<char> {
    match namespace {
        Some(ns) => ns@ + "_"@ + stream,
        None => stream,
    }
}

/// The records collected for one name.
#[derive(Debug, PartialEq, Eq)]
pub struct Batch {
    pub name: String,
    pub items: Vec<Json>,
}

/// The records collected so far, by name, each name once.
#[derive(Debug, PartialEq, Eq)]
pub struct Batches {
    pub batches: Vec<Batch>,
}

/// The place of the batch of a name among the first `n` batches.
pub open spec fn batch_place(batches: Seq<Batch>, name: Seq<char>, n: int) -> Option<int>
    decreases n,
{
    if n <= 0 || n > batches.len() {
        None
    } else if batch_place(batches, name, n - 1) is Some {
        batch_place(batches, name, n - 1)
    } else if batches[n - 1].name@ == name {
        Some(n - 1)
    } else {
        None
    }
}

impl Batches {
    /// No records.
    pub fn new() -> (r: Batches)
        ensures
            r.batches@.len() == 0,
    {
        Batches { batches: Vec::new() }
    }

    /// Adds a record to those collected under its name. A name that is
    /// new comes after the others.
    pub fn write_record(&mut self, record: AirbyteRecordMessage)
        ensures
            match batch_place(
                old(self).batches@,
                batch_name(record.namespace, record.stream@),
                old(self).batches@.len() as int,
            ) {
                Some(at) => {
                    &&& 0 <= at < old(self).batches@.len()
                    &&& final(self).batches@.len() == old(self).batches@.len()
                    &&& final(self).batches@[at].name == old(self).batches@[at].name
                    &&& final(self).batches@[at].items@ == old(self).batches@[at].items@.push(
                        record.data,
                    )
                    &&& forall|i: int|
                        0 <= i < old(self).batches@.len() && i != at ==> final(self).batches@[i]
                            == old(self).batches@[i]
                },
                None => {
                    &&& final(self).batches@.len() == old(self).batches@.len() + 1
                    &&& final(self).batches@.last().name@ == batch_name(
                        record.namespace,
                        record.stream@,
                    )
                    &&& final(self).batches@.last().items@ == seq![record.data]
                    &&& forall|i: int|
                        0 <= i < old(self).batches@.len() ==> final(self).batches@[i] == old(
                            self,
                        ).batches@[i]
                },
            },
    {
        let name: String = match &record.namespace {
            Some(ns) => {
                let mut n = ns.clone();
                n.append("_");
                n.append(record.stream.as_str());
                n
            },
            None => record.stream.clone(),
        };
        let ghost given = self.batches@;
        let mut i: usize = 0;
        while i < self.batches.len()
            invariant
                i <= self.batches@.len(),
                self.batches@ == given,
                given == old(self).batches@,
                name@ == batch_name(record.namespace, record.stream@),
                batch_place(given, name@, i as int) is None,
            decreases self.batches@.len() - i,
        {
            if same_text(self.batches[i].name.as_str(), name.as_str()) {
                proof {
                    assert(batch_place(given, name@, i + 1) == Some(i as int));
                    lemma_batch_place_stays(given, name@, i + 1, given.len() as int);
                }
                let mut batch = Batch { name: String::new(), items: Vec::new() };
                std::mem::swap(&mut self.batches[i], &mut batch);
                batch.items.push(record.data);
                self.batches[i] = batch;
                return ;
            }
            i = i + 1;
        }
        let mut items: Vec<Json> = Vec::new();
        items.push(record.data);
        self.batches.push(Batch { name, items });
    }
}

/// The batch of a name stays where it is found first.
pub proof fn lemma_batch_place_stays(batches: Seq<Batch>, name: Seq<char>, n: int, m: int)
    requires
        0 <= n <= m <= batches.len(),
        batch_place(batches, name, n) is Some,
    ensures
        batch_place(batches, name, m) == batch_place(batches, name, n),
    decreases m - n,
{
    if n < m {
        lemma_batch_place_stays(batches, name, n, m - 1);
    }
}

} // verus!
