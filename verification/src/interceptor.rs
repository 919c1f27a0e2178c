//! What the adaptor makes of each request of the runtime and of each answer
//! of the connector, operation by operation.

use crate::catalog::{
    configured_catalog_failures, configured_stream_failures, configured_streams_failures,
    mode_supported, range_ok, stream_ok, ConfiguredCatalog, ConfiguredStream, ConnectionStatus,
    DestinationSyncMode, Message, Projection, Range, ResourceSpec, Spec, Status, Stream, SyncMode,
};
use crate::errors::{describe, Error};
use crate::json::{
    get_member, items_view, lemma_view_array, lemma_view_kind, lemma_view_object, lemma_wf_object,
    members_view, obj_get, Json, JsonView,
};
use crate::names::{recommended_name, stream_to_recommended_name};
use crate::normalize::{
    automatic_normalizations, date_time_places, doc_normalized, normalize_doc, normalized_upto,
    NormalizationEntry,
};
use crate::patch::{merge, merged};
use crate::pointer::{pointer_text, token_of, tokenize_jsonpointer, tokenized, Pointer, Token};
use crate::schema::{
    fix_document_schema_keys, fix_keys, fix_nonstandard_jsonschema_attributes,
    normalize_schema_date_to_datetime, remove_enums, traversed, DateFormats, Enums, Fix,
    VendorAttributes,
};
use crate::text::{chars_of, duplicate_texts, has_text, owned, same_text, text_of, texts};
use vstd::prelude::*;

verus! {

/// The version of the capture protocol that the adaptor speaks.
pub const PROTOCOL_VERSION: u32 = 3032023;

/// What the runtime asks of the connector.
#[derive(Clone, Copy, Debug, PartialEq, Eq, Structural)]
pub enum Operation {
    Spec,
    Discover,
    Validate,
    Apply,
    Capture,
}

/// Which parts a request of the runtime holds.
#[derive(Clone, Copy, Debug, PartialEq, Eq, Structural)]
pub struct RequestParts {
    pub spec: bool,
    pub discover: bool,
    pub validate: bool,
    pub apply: bool,
    pub open: bool,
}

/// The operation that a request asks for: that of the first part that it
/// holds, of `spec`, `discover`, `validate`, `apply` and `open`.
pub open spec fn operation_of(parts: RequestParts) -> Option<Operation> {
    if parts.spec {
        Some(Operation::Spec)
    } else if parts.discover {
        Some(Operation::Discover)
    } else if parts.validate {
        Some(Operation::Validate)
    } else if parts.apply {
        Some(Operation::Apply)
    } else if parts.open {
        Some(Operation::Capture)
    } else {
        None
    }
}

/// Tells from the first request of the runtime what it asks for. A request
/// that holds none of the parts is refused, with `description` as the words
/// of the failure.
pub fn first_request(parts: &RequestParts, description: &str) -> (r: Result<Operation, Error>)
    ensures
        match r {
            Ok(op) => operation_of(*parts) == Some(op),
            Err(e) => operation_of(*parts) is None && e == Error::UnknownOperation(
                e->UnknownOperation_0,
            ) && e->UnknownOperation_0@ == description@,
        },
{
    if parts.spec {
        Ok(Operation::Spec)
    } else if parts.discover {
        Ok(Operation::Discover)
    } else if parts.validate {
        Ok(Operation::Validate)
    } else if parts.apply {
        Ok(Operation::Apply)
    } else if parts.open {
        Ok(Operation::Capture)
    } else {
        Err(Error::UnknownOperation(owned(description)))
    }
}

/// The arguments with which the connector is started for an operation.
pub open spec fn command_args(
    op: Operation,
    config: Seq<char>,
    catalog: Seq<char>,
    state: Seq<char>,
) -> Seq<Seq<char>> {
    match op {
        Operation::Spec => seq!["spec"@],
        Operation::Discover => seq!["discover"@, "--config"@, config],
        Operation::Validate => seq!["check"@, "--config"@, config],
        Operation::Apply => seq!["spec"@],
        Operation::Capture => seq![
            "read"@,
            "--config"@,
            config,
            "--catalog"@,
            catalog,
            "--state"@,
            state,
        ],
    }
}

/// The arguments with which the connector is started for an operation,
/// given the paths of the files that hold its configuration, its catalog and
/// its state.
pub fn adapt_command_args(
    op: &Operation,
    config_file_path: &str,
    catalog_file_path: &str,
    state_file_path: &str,
) -> (r: Vec<String>)
    ensures
        texts(r@) == command_args(*op, config_file_path@, catalog_file_path@, state_file_path@),
{
    let mut args: Vec<String> = Vec::new();
    match op {
        Operation::Spec => {
            args.push(owned("spec"));
        },
        Operation::Discover => {
            args.push(owned("discover"));
            args.push(owned("--config"));
            args.push(owned(config_file_path));
        },
        Operation::Validate => {
            args.push(owned("check"));
            args.push(owned("--config"));
            args.push(owned(config_file_path));
        },
        Operation::Apply => {
            args.push(owned("spec"));
        },
        Operation::Capture => {
            args.push(owned("read"));
            args.push(owned("--config"));
            args.push(owned(config_file_path));
            args.push(owned("--catalog"));
            args.push(owned(catalog_file_path));
            args.push(owned("--state"));
            args.push(owned(state_file_path));
        },
    }
    assert(texts(args@) =~= command_args(
        *op,
        config_file_path@,
        catalog_file_path@,
        state_file_path@,
    ));
    args
}

/// The first `n` arguments, with a quote, a space and a quote between
/// each two.
pub open spec fn quoted_upto(args: Seq<Seq<char>>, n: int) -> Seq<char>
    decreases n,
{
    if n <= 0 || n > args.len() {
        Seq::empty()
    } else if n == 1 {
        args[0]
    } else {
        quoted_upto(args, n - 1) + "\" \""@ + args[n - 1]
    }
}

/// The command line of the connector: the entrypoint, and the arguments
/// each in quotes.
pub open spec fn command_line(entrypoint: Seq<char>, args: Seq<Seq<char>>) -> Seq<char> {
    entrypoint + " \""@ + quoted_upto(args, args.len() as int) + "\""@
}

/// The command line of the connector.
pub fn connector_command(entrypoint: &str, args: &Vec<String>) -> (r: String)
    ensures
        r@ == command_line(entrypoint@, texts(args@)),
{
    let mut out = owned(entrypoint);
    out.append(" \"");
    let ghost head = out@;
    let mut i: usize = 0;
    assert(out@ =~= head + quoted_upto(texts(args@), 0));
    while i < args.len()
        invariant
            i <= args@.len(),
            out@ == head + quoted_upto(texts(args@), i as int),
        decreases args@.len() - i,
    {
        let ghost before = out@;
        if i > 0 {
            out.append("\" \"");
        }
        out.append(args[i].as_str());
        assert(texts(args@)[i as int] == args@[i as int]@);
        assert(out@ =~= head + quoted_upto(texts(args@), i + 1));
        i = i + 1;
    }
    out.append("\"");
    out
}

/// The line that the shell is given to start the connector with: it reads
/// one line, which is the sign that the connector's files are written, and
/// puts the connector in its own place.
pub open spec fn delayed_line(entrypoint: Seq<char>) -> Seq<char> {
    "read -r connector_proxy_dummy_var && exec "@ + entrypoint
}

/// The line that the shell is given to start the connector with.
pub fn delayed_command(entrypoint: &str) -> (r: String)
    ensures
        r@ == delayed_line(entrypoint@),
{
    describe("read -r connector_proxy_dummy_var && exec ", entrypoint)
}

/// The sign to the waiting shell that the connector's files are written.
pub open spec fn ready_line() -> Seq<u8> {
    seq![82u8, 69u8, 65u8, 68u8, 89u8, 10u8]
}

/// The sign to the waiting shell that the connector's files are written:
/// `READY` and a newline.
pub fn ready() -> (r: Vec<u8>)
    ensures
        r@ == ready_line(),
{
    let mut out: Vec<u8> = Vec::new();
    out.push(82);
    out.push(69);
    out.push(65);
    out.push(68);
    out.push(89);
    out.push(10);
    assert(out@ =~= ready_line());
    out
}

/// The configuration with which the connector is started: the
/// configuration that the runtime gives, remapped by the mapping of the
/// file beside the adaptor, where there is one. There is none where one of
/// the two is no JSON, or the configuration cannot be remapped.
pub open spec fn config_of(config_json: Seq<char>, spec_map: Option<String>) -> Option<JsonView> {
    match crate::json_text::json_of_text(config_json) {
        Some(config) => if crate::json::wf_json(config) {
            match spec_map {
                Some(text) => match crate::json_text::json_of_text(text@) {
                    Some(mapping) => if crate::json::wf_json(mapping) {
                        crate::patch::remapped(config, mapping)
                    } else {
                        None
                    },
                    None => None,
                },
                None => Some(config),
            }
        } else {
            None
        },
        None => None,
    }
}

/// Reads the configuration that the runtime gives, and remaps it by the
/// mapping of the file beside the adaptor, where there is one.
pub fn adapt_config_json(config_json: &str, spec_map: &Option<String>) -> (r: Result<Json, Error>)
    ensures
        match r {
            Ok(config) => config_of(config_json@, *spec_map) == Some(config@) && config.wf(),
            Err(e) => config_of(config_json@, *spec_map) is None && (e is JsonError
                || e is InvalidMapping),
        },
{
    let mapping: Option<Json> = match spec_map {
        Some(text) => match crate::json_text::parse_json(text.as_str()) {
            Ok(m) => Some(m),
            Err(e) => {
                let _ = crate::json_text::parse_json(config_json);
                return Err(e);
            },
        },
        None => None,
    };
    let mut config = match crate::json_text::parse_json(config_json) {
        Ok(c) => c,
        Err(e) => {
            return Err(e);
        },
    };
    match &mapping {
        Some(m) => match crate::patch::remap(&mut config, m) {
            Ok(_) => Ok(config),
            Err(e) => Err(e),
        },
        None => Ok(config),
    }
}

/// What the files beside the adaptor say of the connector's specification.
#[derive(Debug, PartialEq, Eq)]
pub struct SpecPatches {
    /// A merge patch to the schema of the configuration.
    pub spec_patch: Option<Json>,
    /// What takes the place of the connector's description of its authorization.
    pub oauth2_patch: Option<Json>,
    /// An object whose `documentation_url` takes the place of the connector's.
    pub documentation_url_patch: Option<Json>,
}

/// What the runtime is told of the connector.
#[derive(Debug, PartialEq, Eq)]
pub struct SpecResponse {
    pub protocol: u32,
    pub config_schema: Json,
    pub oauth2: Option<Json>,
    pub documentation_url: String,
}

/// The schema of the connector's configuration as the runtime is told it:
/// patched, and without the annotations of the connector's vendor.
pub open spec fn spec_schema(given: JsonView, patch: Option<Json>) -> JsonView {
    traversed(
        &VendorAttributes,
        match patch {
            Some(p) => merged(given, p@),
            None => given,
        },
        Seq::empty(),
    )
}

/// The address of the connector's documentation as the runtime is told it:
/// where there is a patch, its `documentation_url` if that is a string;
/// where there is none, the connector's own; else the empty text.
pub open spec fn spec_documentation_url(given: Option<String>, patch: Option<Json>) -> Seq<char> {
    match patch {
        Some(p) => match p@ {
            JsonView::Object(m) => match obj_get(m, "documentation_url"@) {
                Some(JsonView::String(url)) => url,
                _ => Seq::empty(),
            },
            _ => Seq::empty(),
        },
        None => match given {
            Some(url) => url@,
            None => Seq::empty(),
        },
    }
}

/// What the runtime is told of the connector, given what the connector
/// says of itself and what the files beside the adaptor add.
pub fn adapt_spec_response(spec: Spec, patches: SpecPatches) -> (r: SpecResponse)
    requires
        spec.connection_specification.wf(),
        patches.spec_patch matches Some(p) ==> p.wf(),
        patches.documentation_url_patch matches Some(p) ==> p.wf(),
    ensures
        r.protocol == PROTOCOL_VERSION,
        r.config_schema@ == spec_schema(spec.connection_specification@, patches.spec_patch),
        r.config_schema.wf(),
        r.oauth2 == (if patches.oauth2_patch is Some {
            patches.oauth2_patch
        } else {
            spec.auth_specification
        }),
        r.documentation_url@ == spec_documentation_url(
            spec.documentation_url,
            patches.documentation_url_patch,
        ),
{
    let mut schema = spec.connection_specification;
    match &patches.spec_patch {
        Some(p) => {
            merge(&mut schema, p);
        },
        None => {},
    }
    fix_nonstandard_jsonschema_attributes(&mut schema);
    let oauth2 = match patches.oauth2_patch {
        Some(p) => Some(p),
        None => spec.auth_specification,
    };
    let documentation_url: String = match &patches.documentation_url_patch {
        Some(p) => {
            proof {
                lemma_view_kind(*p);
            }
            match p {
                Json::Object(members) => {
                    proof {
                        lemma_view_object(*members);
                        lemma_wf_object(members_view(members@));
                    }
                    match get_member(members, "documentation_url") {
                        Some(Json::String(url)) => url.clone(),
                        _ => String::new(),
                    }
                },
                _ => String::new(),
            }
        },
        None => match spec.documentation_url {
            Some(url) => url,
            None => String::new(),
        },
    };
    SpecResponse { protocol: PROTOCOL_VERSION, config_schema: schema, oauth2, documentation_url }
}

/// The paths of the resources that a validated request names: for each
/// binding, the name of its stream.
pub open spec fn resource_paths(bindings: Seq<ResourceSpec>) -> Seq<Seq<Seq<char>>> {
    Seq::new(bindings.len(), |i: int| seq![bindings[i].stream@])
}

/// The texts of a run of runs of strings.
pub open spec fn paths_view(v: Seq<Vec<String>>) -> Seq<Seq<Seq<char>>> {
    Seq::new(v.len(), |i: int| texts(v[i]@))
}

/// What the runtime is told after the connector has checked its
/// configuration: the failure that the connector reports, with its words, if
/// it did not succeed; else the paths of the resources of the request that
/// was to be validated, which must be at hand.
pub fn adapt_validate_response(
    status: &ConnectionStatus,
    request: &Option<Vec<ResourceSpec>>,
) -> (r: Result<Vec<Vec<String>>, Error>)
    ensures
        match r {
            Ok(paths) => status.status == Status::Succeeded && request is Some && paths_view(
                paths@,
            ) == resource_paths(request->Some_0@),
            Err(Error::ConnectionStatusUnsuccessful(text)) => status.status != Status::Succeeded
                && text@ == (match status.message {
                Some(m) => m@,
                None => Seq::empty(),
            }),
            Err(Error::MissingValidateRequest) => status.status == Status::Succeeded
                && request is None,
            Err(_) => false,
        },
{
    match status.status {
        Status::Succeeded => {},
        Status::Failed => {
            let text = match &status.message {
                Some(m) => m.clone(),
                None => String::new(),
            };
            return Err(Error::ConnectionStatusUnsuccessful(text));
        },
    }
    let bindings = match request {
        Some(b) => b,
        None => {
            return Err(Error::MissingValidateRequest);
        },
    };
    let mut paths: Vec<Vec<String>> = Vec::new();
    let mut i: usize = 0;
    while i < bindings.len()
        invariant
            i <= bindings@.len(),
            paths@.len() == i,
            forall|j: int| 0 <= j < i ==> texts((#[trigger] paths@[j])@) == seq![bindings@[j].stream@],
        decreases bindings@.len() - i,
    {
        let mut path: Vec<String> = Vec::new();
        path.push(bindings[i].stream.clone());
        assert(texts(path@) =~= seq![bindings@[i as int].stream@]);
        paths.push(path);
        i = i + 1;
    }
    assert(paths_view(paths@) =~= resource_paths(bindings@));
    Ok(paths)
}

/// What the files beside the adaptor say of one stream.
#[derive(Debug, PartialEq, Eq)]
pub struct StreamFiles {
    /// The names of the properties that make up the key, in place of what
    /// the connector says.
    pub primary_key: Option<Json>,
    /// A merge patch to the schema of the stream's documents.
    pub schema_patch: Option<Json>,
}

/// A stream as the runtime is told of it.
#[derive(Debug, PartialEq, Eq)]
pub struct DiscoveredBinding {
    pub recommended_name: String,
    pub resource_config: ResourceSpec,
    pub key: Vec<String>,
    pub document_schema: Json,
    pub disable: bool,
}

/// Whether a stream is offered switched off: there is a list of the
/// streams selected, and the stream is not in it.
pub open spec fn is_disabled(name: Seq<char>, selected: Option<Vec<String>>) -> bool {
    selected matches Some(s) && !texts(s@).contains(name)
}

/// The mode in which a stream is read: incrementally if it supports that,
/// else in full.
pub open spec fn chosen_mode(supported: Option<Vec<SyncMode>>) -> SyncMode {
    if supported matches Some(m) && m@.contains(SyncMode::Incremental) {
        SyncMode::Incremental
    } else {
        SyncMode::FullRefresh
    }
}

/// The pointer that leads along a path of names.
pub open spec fn path_pointer(path: Seq<Seq<char>>) -> Seq<char> {
    pointer_text(path.map_values(|s: Seq<char>| token_of(s)))
}

/// The key that the connector gives a stream, as pointers.
pub open spec fn source_key(paths: Option<Vec<Vec<String>>>) -> Seq<Seq<char>> {
    match paths {
        Some(p) => Seq::new(p@.len(), |i: int| path_pointer(texts(p@[i]@))),
        None => Seq::empty(),
    }
}

/// The key that a file beside the adaptor gives a stream, as pointers: a
/// list of names, each of which becomes the pointer to the property of that
/// name. There is none where the file holds anything else.
pub open spec fn patched_key(pk: JsonView) -> Option<Seq<Seq<char>>> {
    match pk {
        JsonView::Array(items) => if forall|i: int|
            0 <= i < items.len() ==> (#[trigger] items[i]) is String {
            Some(Seq::new(items.len(), |i: int| seq!['/'] + items[i]->String_0))
        } else {
            None
        },
        _ => None,
    }
}

/// The key of a stream, as pointers: what the file beside the adaptor
/// says, where there is one, else what the connector says.
pub open spec fn discovered_key(paths: Option<Vec<Vec<String>>>, pk: Option<Json>) -> Option<
    Seq<Seq<char>>,
> {
    match pk {
        Some(p) => patched_key(p@),
        None => Some(source_key(paths)),
    }
}

/// A pointer without its first character.
pub open spec fn without_slash(k: Seq<char>) -> Seq<char> {
    if k.len() > 0 {
        k.skip(1)
    } else {
        k
    }
}

/// The fields by which a stream is read on from where it stopped: those
/// that the connector names, if it names any, else those of the key.
pub open spec fn cursor_of(default: Option<Vec<String>>, key: Seq<Seq<char>>) -> Seq<Seq<char>> {
    match default {
        Some(cf) => if cf@.len() > 0 {
            texts(cf@)
        } else {
            key.map_values(|k: Seq<char>| without_slash(k))
        },
        None => key.map_values(|k: Seq<char>| without_slash(k)),
    }
}

/// The schema after the first `n` of the normalizations asked for schemas
/// are carried out. `date-to-datetime` is the one that there is.
pub open spec fn schema_normalized(
    schema: JsonView,
    normalizations: Seq<Seq<char>>,
    n: int,
) -> JsonView
    decreases n,
{
    if n <= 0 || n > normalizations.len() {
        schema
    } else if normalizations[n - 1] == "date-to-datetime"@ {
        traversed(&DateFormats, schema_normalized(schema, normalizations, n - 1), Seq::empty())
    } else {
        schema_normalized(schema, normalizations, n - 1)
    }
}

/// The schema of a stream's documents before its keys are fixed: patched,
/// without the annotations of the connector's vendor and without
/// enumerations, and normalized as asked.
pub open spec fn discovered_schema(
    given: JsonView,
    patch: Option<Json>,
    normalizations: Seq<Seq<char>>,
) -> JsonView {
    schema_normalized(
        traversed(
            &Enums,
            traversed(
                &VendorAttributes,
                match patch {
                    Some(p) => merged(given, p@),
                    None => given,
                },
                Seq::empty(),
            ),
            Seq::empty(),
        ),
        normalizations,
        normalizations.len() as int,
    )
}

/// The pointer that leads along a path of names.
fn pointer_of_path(path: &Vec<String>) -> (r: String)
    ensures
        r@ == path_pointer(texts(path@)),
{
    let mut tokens: Vec<Token> = Vec::new();
    let mut i: usize = 0;
    while i < path.len()
        invariant
            i <= path@.len(),
            tokens@.len() == i,
            forall|j: int| 0 <= j < i ==> (#[trigger] tokens@[j])@ == token_of(path@[j]@),
        decreases path@.len() - i,
    {
        tokens.push(Token::from_str(path[i].as_str()));
        i = i + 1;
    }
    let ptr = Pointer::from_tokens(tokens);
    assert(ptr@ =~= texts(path@).map_values(|s: Seq<char>| token_of(s)));
    ptr.to_string()
}

/// The key that the connector gives a stream, as pointers.
fn key_of_source(paths: &Option<Vec<Vec<String>>>) -> (r: Vec<String>)
    ensures
        texts(r@) == source_key(*paths),
{
    let mut out: Vec<String> = Vec::new();
    match paths {
        Some(p) => {
            let mut i: usize = 0;
            while i < p.len()
                invariant
                    i <= p@.len(),
                    out@.len() == i,
                    forall|j: int|
                        0 <= j < i ==> (#[trigger] out@[j])@ == path_pointer(texts(p@[j]@)),
                decreases p@.len() - i,
            {
                out.push(pointer_of_path(&p[i]));
                i = i + 1;
            }
            assert(texts(out@) =~= source_key(*paths));
        },
        None => {
            assert(texts(out@) =~= source_key(*paths));
        },
    }
    out
}

/// The key that a file beside the adaptor gives a stream, as pointers.
fn key_of_patch(pk: &Json) -> (r: Option<Vec<String>>)
    ensures
        match r {
            Some(k) => patched_key(pk@) == Some(texts(k@)),
            None => patched_key(pk@) is None,
        },
{
    proof {
        lemma_view_kind(*pk);
    }
    match pk {
        Json::Array(items) => {
            proof {
                lemma_view_array(*items);
            }
            let ghost iv = items_view(items@);
            let mut out: Vec<String> = Vec::new();
            let mut i: usize = 0;
            while i < items.len()
                invariant
                    i <= items@.len(),
                    iv == items_view(items@),
                    pk@ == JsonView::Array(iv),
                    out@.len() == i,
                    forall|j: int| 0 <= j < i ==> (#[trigger] iv[j]) is String,
                    forall|j: int|
                        0 <= j < i ==> (#[trigger] out@[j])@ == seq!['/'] + iv[j]->String_0,
                decreases items@.len() - i,
            {
                proof {
                    lemma_view_kind(items@[i as int]);
                    assert(iv[i as int] == items@[i as int]@);
                }
                match &items[i] {
                    Json::String(name) => {
                        let mut k = String::new();
                        k.push('/');
                        k.append(name.as_str());
                        assert(k@ =~= seq!['/'] + name@);
                        out.push(k);
                    },
                    _ => {
                        assert(!(iv[i as int] is String));
                        return None;
                    },
                }
                i = i + 1;
            }
            assert(texts(out@) =~= Seq::new(iv.len(), |i: int| seq!['/'] + iv[i]->String_0));
            Some(out)
        },
        _ => None,
    }
}

/// The pointers without their first characters.
fn keys_without_slash(key: &Vec<String>) -> (r: Vec<String>)
    ensures
        texts(r@) == texts(key@).map_values(|k: Seq<char>| without_slash(k)),
{
    let mut out: Vec<String> = Vec::new();
    let mut i: usize = 0;
    while i < key.len()
        invariant
            i <= key@.len(),
            out@.len() == i,
            forall|j: int| 0 <= j < i ==> (#[trigger] out@[j])@ == without_slash(key@[j]@),
        decreases key@.len() - i,
    {
        let chars = chars_of(key[i].as_str());
        if chars.len() > 0 {
            let t = text_of(&chars, 1, chars.len());
            assert(chars@.subrange(1, chars@.len() as int) =~= key@[i as int]@.skip(1));
            out.push(t);
        } else {
            out.push(String::new());
            assert(key@[i as int]@ =~= Seq::<char>::empty());
        }
        i = i + 1;
    }
    assert(texts(out@) =~= texts(key@).map_values(|k: Seq<char>| without_slash(k)));
    out
}

/// What the runtime is told of one stream that the connector offers. The
/// key that a file gives is refused if it is no list of names, and the
/// schema if it cannot hold the key.
pub fn adapt_discover_stream(
    stream: Stream,
    selected_streams: &Option<Vec<String>>,
    schema_normalizations: &Vec<String>,
    files: StreamFiles,
) -> (r: Result<DiscoveredBinding, Error>)
    requires
        stream.json_schema.wf(),
        files.schema_patch matches Some(p) ==> p.wf(),
    ensures
        match r {
            Ok(b) => {
                &&& b.recommended_name@ == recommended_name(stream.name@)
                &&& b.disable == is_disabled(stream.name@, *selected_streams)
                &&& discovered_key(stream.source_defined_primary_key, files.primary_key)
                    == Some(texts(b.key@))
                &&& b.resource_config.stream@ == stream.name@
                &&& b.resource_config.namespace == stream.namespace
                &&& b.resource_config.sync_mode == chosen_mode(stream.supported_sync_modes)
                &&& b.resource_config.cursor_field is Some
                &&& texts(b.resource_config.cursor_field->Some_0@) == cursor_of(
                    stream.default_cursor_field,
                    texts(b.key@),
                )
                &&& b.document_schema.wf()
                &&& {
                    let fixed = fix_keys(
                        discovered_schema(
                            stream.json_schema@,
                            files.schema_patch,
                            texts(schema_normalizations@),
                        ),
                        texts(b.key@),
                    );
                    fixed == Fix::Done(b.document_schema@) || fixed == Fix::Stopped(
                        b.document_schema@,
                    )
                }
            },
            Err(Error::InvalidPKPatch(_)) => discovered_key(
                stream.source_defined_primary_key,
                files.primary_key,
            ) is None,
            Err(Error::InvalidSchema(_)) => discovered_key(
                stream.source_defined_primary_key,
                files.primary_key,
            ) matches Some(key) && fix_keys(
                discovered_schema(
                    stream.json_schema@,
                    files.schema_patch,
                    texts(schema_normalizations@),
                ),
                key,
            ) is Invalid,
            Err(_) => false,
        },
{
    let disable = match selected_streams {
        Some(selected) => !has_text(selected, stream.name.as_str()),
        None => false,
    };
    let mode = match &stream.supported_sync_modes {
        Some(modes) => {
            let mut found = false;
            let mut i: usize = 0;
            while i < modes.len() && !found
                invariant
                    i <= modes@.len(),
                    found ==> modes@.contains(SyncMode::Incremental),
                    !found ==> forall|j: int| 0 <= j < i ==> modes@[j] != SyncMode::Incremental,
                decreases modes@.len() - i + (if found { 0int } else { 1int }),
            {
                if modes[i] == SyncMode::Incremental {
                    assert(modes@[i as int] == SyncMode::Incremental);
                    found = true;
                } else {
                    i = i + 1;
                }
            }
            if found {
                SyncMode::Incremental
            } else {
                SyncMode::FullRefresh
            }
        },
        None => SyncMode::FullRefresh,
    };
    let key: Vec<String> = match &files.primary_key {
        Some(pk) => match key_of_patch(pk) {
            Some(k) => k,
            None => {
                return Err(Error::InvalidPKPatch(owned("expected an array of names")));
            },
        },
        None => key_of_source(&stream.source_defined_primary_key),
    };
    let recommended = stream_to_recommended_name(stream.name.as_str());
    let cursor_field: Vec<String> = match &stream.default_cursor_field {
        Some(cf) => {
            if cf.len() > 0 {
                duplicate_texts(cf)
            } else {
                keys_without_slash(&key)
            }
        },
        None => keys_without_slash(&key),
    };
    let mut schema = stream.json_schema;
    match &files.schema_patch {
        Some(p) => {
            merge(&mut schema, p);
        },
        None => {},
    }
    fix_nonstandard_jsonschema_attributes(&mut schema);
    remove_enums(&mut schema);
    let ghost base = schema@;
    let mut i: usize = 0;
    while i < schema_normalizations.len()
        invariant
            i <= schema_normalizations@.len(),
            schema.wf(),
            schema@ == schema_normalized(base, texts(schema_normalizations@), i as int),
        decreases schema_normalizations@.len() - i,
    {
        assert(texts(schema_normalizations@)[i as int] == schema_normalizations@[i as int]@);
        if same_text(schema_normalizations[i].as_str(), "date-to-datetime") {
            normalize_schema_date_to_datetime(&mut schema);
        }
        i = i + 1;
    }
    let resource_config = ResourceSpec {
        stream: stream.name,
        namespace: stream.namespace,
        sync_mode: mode,
        cursor_field: Some(cursor_field),
    };
    let keys = duplicate_texts(&key);
    match fix_document_schema_keys(schema, keys) {
        Ok(fixed) => Ok(
            DiscoveredBinding {
                recommended_name: recommended,
                resource_config,
                key,
                document_schema: fixed,
                disable,
            },
        ),
        Err(e) => {
            match e {
                Error::InvalidSchema(text) => Err(Error::InvalidSchema(text)),
                _ => Err(Error::InvalidSchema(String::new())),
            }
        },
    }
}

/// The collection that the documents of a binding are written to.
#[derive(Debug, PartialEq, Eq)]
pub struct Collection {
    pub write_schema: Json,
    pub key: Vec<String>,
    pub projections: Vec<Projection>,
}

/// One binding of a capture that is opened.
#[derive(Debug, PartialEq, Eq)]
pub struct CaptureBinding {
    pub resource: ResourceSpec,
    /// The changes that a file beside the adaptor asks for the stream's documents.
    pub normalizations: Option<Vec<NormalizationEntry>>,
    pub collection: Option<Collection>,
}

/// What is kept of a binding while its stream is read.
#[derive(Debug, PartialEq, Eq)]
pub struct SavedBinding {
    pub stream: String,
    /// The place of the binding among the bindings of the capture.
    pub i: usize,
    pub normalizations: Option<Vec<NormalizationEntry>>,
    pub doc_schema: Json,
}

/// The bindings of a capture by the names of their streams. Where two
/// bindings name one stream, the later one counts.
#[derive(Debug, PartialEq, Eq)]
pub struct Bindings {
    pub saved: Vec<SavedBinding>,
}

/// The place of the last of the first `n` saved bindings that has the name.
pub open spec fn last_named(saved: Seq<SavedBinding>, name: Seq<char>, n: int) -> Option<int>
    decreases n,
{
    if n <= 0 || n > saved.len() {
        None
    } else if saved[n - 1].stream@ == name {
        Some(n - 1)
    } else {
        last_named(saved, name, n - 1)
    }
}

/// The place of a saved binding that is found by name holds a binding of that name.
pub proof fn lemma_last_named(saved: Seq<SavedBinding>, name: Seq<char>, n: int)
    ensures
        last_named(saved, name, n) matches Some(k) ==> 0 <= k < n && k < saved.len()
            && saved[k].stream@ == name,
    decreases n,
{
    if n > 0 && n <= saved.len() && saved[n - 1].stream@ != name {
        lemma_last_named(saved, name, n - 1);
    }
}

impl Bindings {
    /// Every schema kept is well laid out.
    pub open spec fn wf(&self) -> bool {
        forall|k: int| 0 <= k < self.saved@.len() ==> (#[trigger] self.saved@[k]).doc_schema.wf()
    }

    /// The place of the binding that counts for a stream.
    pub open spec fn place_of(&self, name: Seq<char>) -> Option<int> {
        last_named(self.saved@, name, self.saved@.len() as int)
    }

    /// The binding that counts for a stream.
    pub fn get(&self, name: &str) -> (r: Option<&SavedBinding>)
        ensures
            match r {
                Some(b) => self.place_of(name@) matches Some(k) && self.saved@[k] == *b,
                None => self.place_of(name@) is None,
            },
    {
        let mut n: usize = self.saved.len();
        while n > 0
            invariant
                n <= self.saved@.len(),
                self.place_of(name@) == last_named(self.saved@, name@, n as int),
            decreases n,
        {
            if same_text(self.saved[n - 1].stream.as_str(), name) {
                return Some(&self.saved[n - 1]);
            }
            n = n - 1;
        }
        None
    }
}

/// The places of those of the first `n` bindings that have a collection.
pub open spec fn collected(bindings: Seq<CaptureBinding>, n: int) -> Seq<int>
    decreases n,
{
    if n <= 0 || n > bindings.len() {
        Seq::empty()
    } else if bindings[n - 1].collection is Some {
        collected(bindings, n - 1).push(n - 1)
    } else {
        collected(bindings, n - 1)
    }
}

/// Whether two optional lists of strings hold the same texts.
pub open spec fn same_texts(a: Option<Vec<String>>, b: Option<Vec<String>>) -> bool {
    match (a, b) {
        (Some(x), Some(y)) => texts(x@) == texts(y@),
        (None, None) => true,
        _ => false,
    }
}

/// Whether two optional strings hold the same text.
pub open spec fn same_optional_text(a: Option<String>, b: Option<String>) -> bool {
    match (a, b) {
        (Some(x), Some(y)) => x@ == y@,
        (None, None) => true,
        _ => false,
    }
}

/// Whether two lists of projections hold the same projections.
pub open spec fn same_projections(a: Seq<Projection>, b: Seq<Projection>) -> bool {
    a.len() == b.len() && forall|i: int|
        0 <= i < a.len() ==> (#[trigger] a[i]).field@ == b[i].field@ && a[i].ptr@ == b[i].ptr@
}

/// Whether two optional lists of entries hold the same entries.
pub open spec fn same_entries(
    a: Option<Vec<NormalizationEntry>>,
    b: Option<Vec<NormalizationEntry>>,
) -> bool {
    match (a, b) {
        (Some(x), Some(y)) => x@.len() == y@.len() && forall|i: int|
            0 <= i < x@.len() ==> (#[trigger] x@[i]).pointer@ == y@[i].pointer@
                && x@[i].normalization == y@[i].normalization,
        (None, None) => true,
        _ => false,
    }
}

/// Whether a stream is configured as a binding asks: read in the
/// binding's mode, which is the one mode that the stream is said to
/// support; appended at the destination; with the binding's cursor; with
/// the key of the collection, each pointer split into its tokens; with the
/// collection's schema and projections.
pub open spec fn configured_as(s: ConfiguredStream, b: CaptureBinding) -> bool {
    &&& b.collection is Some
    &&& s.sync_mode == b.resource.sync_mode
    &&& s.destination_sync_mode == DestinationSyncMode::Append
    &&& same_texts(s.cursor_field, b.resource.cursor_field)
    &&& s.primary_key is Some
    &&& paths_view(s.primary_key->Some_0@) == Seq::new(
        b.collection->Some_0.key@.len(),
        |i: int| tokenized(b.collection->Some_0.key@[i]@),
    )
    &&& s.stream.name@ == b.resource.stream@
    &&& same_optional_text(s.stream.namespace, b.resource.namespace)
    &&& s.stream.json_schema@ == b.collection->Some_0.write_schema@
    &&& s.stream.supported_sync_modes is Some
    &&& s.stream.supported_sync_modes->Some_0@ == seq![b.resource.sync_mode]
    &&& s.stream.default_cursor_field is None
    &&& s.stream.source_defined_cursor is None
    &&& s.stream.source_defined_primary_key is None
    &&& same_projections(s.projections@, b.collection->Some_0.projections@)
}

/// Whether a binding is kept as it was given, at place `i`.
pub open spec fn saved_as(s: SavedBinding, b: CaptureBinding, i: int) -> bool {
    &&& b.collection is Some
    &&& s.stream@ == b.resource.stream@
    &&& s.i == i
    &&& same_entries(s.normalizations, b.normalizations)
    &&& s.doc_schema@ == b.collection->Some_0.write_schema@
}

fn copy_optional_texts(v: &Option<Vec<String>>) -> (r: Option<Vec<String>>)
    ensures
        same_texts(r, *v),
{
    match v {
        Some(x) => Some(duplicate_texts(x)),
        None => None,
    }
}

fn copy_optional_text(v: &Option<String>) -> (r: Option<String>)
    ensures
        same_optional_text(r, *v),
{
    match v {
        Some(x) => Some(x.clone()),
        None => None,
    }
}

fn copy_projections(v: &Vec<Projection>) -> (r: Vec<Projection>)
    ensures
        same_projections(r@, v@),
{
    let mut out: Vec<Projection> = Vec::new();
    let mut i: usize = 0;
    while i < v.len()
        invariant
            i <= v@.len(),
            out@.len() == i,
            forall|j: int|
                0 <= j < i ==> (#[trigger] out@[j]).field@ == v@[j].field@ && out@[j].ptr@
                    == v@[j].ptr@,
        decreases v@.len() - i,
    {
        out.push(Projection { field: v[i].field.clone(), ptr: v[i].ptr.clone() });
        i = i + 1;
    }
    out
}

fn copy_entries(v: &Option<Vec<NormalizationEntry>>) -> (r: Option<Vec<NormalizationEntry>>)
    ensures
        same_entries(r, *v),
{
    match v {
        Some(x) => {
            let mut out: Vec<NormalizationEntry> = Vec::new();
            let mut i: usize = 0;
            while i < x.len()
                invariant
                    i <= x@.len(),
                    out@.len() == i,
                    forall|j: int|
                        0 <= j < i ==> (#[trigger] out@[j]).pointer@ == x@[j].pointer@
                            && out@[j].normalization == x@[j].normalization,
                decreases x@.len() - i,
            {
                out.push(
                    NormalizationEntry {
                        pointer: x[i].pointer.clone(),
                        normalization: x[i].normalization,
                    },
                );
                i = i + 1;
            }
            Some(out)
        },
        None => None,
    }
}

/// The key of a collection, each pointer split into its tokens.
fn tokenized_key(key: &Vec<String>) -> (r: Vec<Vec<String>>)
    ensures
        paths_view(r@) == Seq::new(key@.len(), |i: int| tokenized(key@[i]@)),
{
    let mut out: Vec<Vec<String>> = Vec::new();
    let mut i: usize = 0;
    while i < key.len()
        invariant
            i <= key@.len(),
            out@.len() == i,
            forall|j: int| 0 <= j < i ==> texts((#[trigger] out@[j])@) == tokenized(key@[j]@),
        decreases key@.len() - i,
    {
        let tokens = tokenize_jsonpointer(key[i].as_str());
        assert(texts(tokens@) =~= tokenized(key@[i as int]@));
        out.push(tokens);
        i = i + 1;
    }
    assert(paths_view(out@) =~= Seq::new(key@.len(), |i: int| tokenized(key@[i]@)));
    out
}

/// Streams that are configured as bindings ask break no rule of their own.
pub proof fn lemma_configured_streams_keep_rules(streams: Seq<ConfiguredStream>, n: int)
    requires
        0 <= n <= streams.len(),
        forall|k: int|
            0 <= k < streams.len() ==> stream_ok((#[trigger] streams[k]).stream) && mode_supported(
                streams[k],
            ),
    ensures
        configured_streams_failures(streams, n) == Seq::<crate::errors::ValidationError>::empty(),
    decreases n,
{
    if n > 0 {
        lemma_configured_streams_keep_rules(streams, n - 1);
        assert(stream_ok(streams[n - 1].stream) && mode_supported(streams[n - 1]));
        assert(configured_stream_failures(streams[n - 1], (n - 1) as usize) =~= Seq::empty());
    }
}

/// The rules that the catalog of a capture breaks: it holds no stream, as
/// no binding has a collection; its range begins after its end.
pub open spec fn open_failures(bindings: Seq<CaptureBinding>, range: Option<Range>) -> Seq<
    crate::errors::ValidationError,
> {
    (if collected(bindings, bindings.len() as int).len() >= 1 {
        Seq::<crate::errors::ValidationError>::empty()
    } else {
        seq![
            crate::errors::ValidationError {
                stream: None,
                code: crate::errors::ValidationCode::Length,
            },
        ]
    }) + (match range {
        Some(r) if !range_ok(r) => seq![
            crate::errors::ValidationError {
                stream: None,
                code: crate::errors::ValidationCode::RangeOrder,
            },
        ],
        _ => Seq::<crate::errors::ValidationError>::empty(),
    })
}

/// The catalog with which the connector is started to read, and the
/// bindings kept for the reading, for a capture that is opened. Each
/// binding that has a collection gives one stream of the catalog and one
/// binding kept, in the order of the bindings. The capture is refused where
/// no binding has a collection, or the range of keys begins after its end.
pub fn adapt_pull_request(bindings: &Vec<CaptureBinding>, range: Option<Range>) -> (r: Result<
    (ConfiguredCatalog, Bindings),
    Error,
>)
    requires
        forall|i: int|
            0 <= i < bindings@.len() ==> ((#[trigger] bindings@[i]).collection matches Some(c)
                ==> c.write_schema.wf()),
    ensures
        r is Ok <==> collected(bindings@, bindings@.len() as int).len() >= 1 && (range matches Some(
            x,
        ) ==> range_ok(x)),
        match r {
            Ok((catalog, kept)) => {
                let at = collected(bindings@, bindings@.len() as int);
                &&& catalog.range == range
                &&& catalog.streams@.len() == at.len()
                &&& kept.saved@.len() == at.len()
                &&& kept.wf()
                &&& forall|k: int|
                    0 <= k < at.len() ==> configured_as(
                        #[trigger] catalog.streams@[k],
                        bindings@[at[k]],
                    )
                &&& forall|k: int|
                    0 <= k < at.len() ==> saved_as(#[trigger] kept.saved@[k], bindings@[at[k]], at[k])
                &&& forall|k: int|
                    0 <= k < catalog.streams@.len() ==> mode_supported(#[trigger] catalog.streams@[k])
            },
            Err(e) => e is InvalidCatalog && e->InvalidCatalog_0@ == open_failures(
                bindings@,
                range,
            ),
        },
{
    let mut streams: Vec<ConfiguredStream> = Vec::new();
    let mut saved: Vec<SavedBinding> = Vec::new();
    let mut i: usize = 0;
    while i < bindings.len()
        invariant
            i <= bindings@.len(),
            forall|j: int|
                0 <= j < bindings@.len() ==> ((#[trigger] bindings@[j]).collection matches Some(c)
                    ==> c.write_schema.wf()),
            streams@.len() == collected(bindings@, i as int).len(),
            saved@.len() == streams@.len(),
            forall|k: int|
                0 <= k < streams@.len() ==> 0 <= (#[trigger] collected(bindings@, i as int)[k]) < i,
            forall|k: int|
                0 <= k < streams@.len() ==> configured_as(
                    #[trigger] streams@[k],
                    bindings@[collected(bindings@, i as int)[k]],
                ),
            forall|k: int|
                0 <= k < streams@.len() ==> saved_as(
                    #[trigger] saved@[k],
                    bindings@[collected(bindings@, i as int)[k]],
                    collected(bindings@, i as int)[k],
                ),
            forall|k: int| 0 <= k < saved@.len() ==> (#[trigger] saved@[k]).doc_schema.wf(),
        decreases bindings@.len() - i,
    {
        let binding = &bindings[i];
        let ghost before = collected(bindings@, i as int);
        match &binding.collection {
            Some(collection) => {
                let kept = SavedBinding {
                    stream: binding.resource.stream.clone(),
                    i,
                    normalizations: copy_entries(&binding.normalizations),
                    doc_schema: collection.write_schema.duplicate(),
                };
                let mut modes: Vec<SyncMode> = Vec::new();
                modes.push(binding.resource.sync_mode);
                let stream = ConfiguredStream {
                    sync_mode: binding.resource.sync_mode,
                    destination_sync_mode: DestinationSyncMode::Append,
                    cursor_field: copy_optional_texts(&binding.resource.cursor_field),
                    primary_key: Some(tokenized_key(&collection.key)),
                    stream: Stream {
                        name: binding.resource.stream.clone(),
                        namespace: copy_optional_text(&binding.resource.namespace),
                        json_schema: collection.write_schema.duplicate(),
                        supported_sync_modes: Some(modes),
                        default_cursor_field: None,
                        source_defined_cursor: None,
                        source_defined_primary_key: None,
                    },
                    projections: copy_projections(&collection.projections),
                };
                assert(configured_as(stream, bindings@[i as int]));
                assert(saved_as(kept, bindings@[i as int], i as int));
                let ghost old_streams = streams@;
                let ghost old_saved = saved@;
                streams.push(stream);
                saved.push(kept);
                proof {
                    let now = collected(bindings@, i + 1);
                    assert(now == before.push(i as int));
                    assert forall|k: int| 0 <= k < streams@.len() implies configured_as(
                        #[trigger] streams@[k],
                        bindings@[now[k]],
                    ) by {
                        if k < old_streams.len() {
                            assert(streams@[k] == old_streams[k]);
                            assert(now[k] == before[k]);
                        }
                    }
                    assert forall|k: int| 0 <= k < streams@.len() implies saved_as(
                        #[trigger] saved@[k],
                        bindings@[now[k]],
                        now[k],
                    ) by {
                        if k < old_saved.len() {
                            assert(saved@[k] == old_saved[k]);
                            assert(now[k] == before[k]);
                        }
                    }
                    assert forall|k: int| 0 <= k < streams@.len() implies 0 <= (#[trigger] now[k]) < i
                        + 1 by {
                        if k < old_streams.len() {
                            assert(now[k] == before[k]);
                        }
                    }
                    assert forall|k: int| 0 <= k < saved@.len() implies (
                    #[trigger] saved@[k]).doc_schema.wf() by {
                        if k < old_saved.len() {
                            assert(saved@[k] == old_saved[k]);
                        }
                    }
                }
            },
            None => {},
        }
        i = i + 1;
    }
    let catalog = ConfiguredCatalog { streams, range };
    proof {
        assert forall|k: int| 0 <= k < catalog.streams@.len() implies stream_ok(
            (#[trigger] catalog.streams@[k]).stream,
        ) && mode_supported(catalog.streams@[k]) by {
            let s = catalog.streams@[k];
            assert(configured_as(s, bindings@[collected(bindings@, bindings@.len() as int)[k]]));
            assert(s.stream.supported_sync_modes->Some_0@[0] == s.sync_mode);
        }
        lemma_configured_streams_keep_rules(catalog.streams@, catalog.streams@.len() as int);
    }
    assert(configured_catalog_failures(catalog) =~= open_failures(bindings@, range));
    match catalog.validate() {
        Ok(_) => Ok((catalog, Bindings { saved })),
        Err(failures) => Err(Error::InvalidCatalog(failures)),
    }
}

/// What the runtime is told while a capture runs.
#[derive(Debug, PartialEq, Eq)]
pub enum Response {
    /// The capture is open.
    Opened,
    /// A document was read for the binding at this place.
    Captured { binding: u32, doc: Json },
    /// What was captured so far can be committed, with this state.
    Checkpoint { updated_json: String, merge_patch: bool },
}

/// The document of a record as the runtime is given it: dates and times
/// brought into the form of RFC 3339 where the schema expects them, given
/// what the liberal reader found at each such place, and then changed as
/// the entries of the binding ask.
pub open spec fn captured_doc(
    data: JsonView,
    binding: SavedBinding,
    found: Seq<Option<crate::dates::Instant>>,
) -> JsonView {
    doc_normalized(
        normalized_upto(
            data,
            date_time_places(data, binding.doc_schema@),
            found,
            found.len() as int,
        ),
        binding.normalizations,
    )
}

/// What the runtime is told for one message of the connector while a
/// capture runs. A state is a checkpoint, which is a merge patch only if the
/// state says so. A record is a document captured for the binding that
/// counts for its stream. A record of a stream without a binding is
/// refused, and so is a message that is neither.
pub fn adapt_pull_response(bindings: &Bindings, message: Message) -> (r: Result<Response, Error>)
    requires
        bindings.wf(),
        message.record matches Some(rec) ==> rec.data.wf(),
    ensures
        match r {
            Ok(Response::Checkpoint { updated_json, merge_patch }) => {
                &&& message.state is Some
                &&& updated_json@ == message.state->Some_0.data@
                &&& merge_patch == (match message.state->Some_0.merge {
                    Some(m) => m,
                    None => false,
                })
            },
            Ok(Response::Captured { binding, doc }) => {
                &&& message.state is None
                &&& message.record is Some
                &&& bindings.place_of(message.record->Some_0.stream@) is Some
                &&& {
                    let kept = bindings.saved@[bindings.place_of(
                        message.record->Some_0.stream@,
                    )->Some_0];
                    &&& binding == kept.i as u32
                    &&& (kept.i <= u32::MAX ==> binding == kept.i)
                    &&& doc.wf()
                    &&& exists|found: Seq<Option<crate::dates::Instant>>|
                        found.len() == date_time_places(
                            message.record->Some_0.data@,
                            kept.doc_schema@,
                        ).len() && doc@ == #[trigger] captured_doc(
                            message.record->Some_0.data@,
                            kept,
                            found,
                        )
                }
            },
            Ok(Response::Opened) => false,
            Err(Error::DanglingConnectorRecord(name)) => {
                &&& message.state is None
                &&& message.record is Some
                &&& bindings.place_of(message.record->Some_0.stream@) is None
                &&& name@ == message.record->Some_0.stream@
            },
            Err(Error::InvalidPullResponse) => message.state is None && message.record is None,
            Err(_) => false,
        },
{
    match message.state {
        Some(state) => {
            let merge_patch = match state.merge {
                Some(m) => m,
                None => false,
            };
            return Ok(Response::Checkpoint { updated_json: state.data, merge_patch });
        },
        None => {},
    }
    match message.record {
        Some(record) => {
            let kept = match bindings.get(record.stream.as_str()) {
                Some(k) => k,
                None => {
                    return Err(Error::DanglingConnectorRecord(record.stream));
                },
            };
            proof {
                lemma_last_named(
                    bindings.saved@,
                    record.stream@,
                    bindings.saved@.len() as int,
                );
            }
            let ghost data = record.data@;
            let mut doc = record.data;
            automatic_normalizations(&mut doc, &kept.doc_schema);
            let ghost found = choose|found: Seq<Option<crate::dates::Instant>>|
                found.len() == date_time_places(data, kept.doc_schema@).len() && doc@
                    == #[trigger] normalized_upto(
                    data,
                    date_time_places(data, kept.doc_schema@),
                    found,
                    found.len() as int,
                );
            normalize_doc(&mut doc, &kept.normalizations);
            assert(doc@ == captured_doc(data, *kept, found));
            let binding: u32 = if kept.i <= 0xffff_ffff {
                kept.i as u32
            } else {
                #[verifier::truncate]
                (kept.i as u32)
            };
            Ok(Response::Captured { binding, doc })
        },
        None => Err(Error::InvalidPullResponse),
    }
}

} // verus!
