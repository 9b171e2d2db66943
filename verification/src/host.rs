//! The standalone host: what it asks of the coordinator for a root graph,
//! and how it reads and writes an execution's event file.

use crate::coordinator::{
    limit_refused, CoordinatorError, CoordinatorOptions, DEFAULT_MAX_INVOCATIONS,
};
use crate::events::export::ExportError;
use crate::ids::{GraphDigest, InvocationId};
use crate::middleware::MiddlewareEntry;
use crate::model::Graph;
use crate::observe::{
    clean_from, decode_engine_log, decodes_to, encode_engine_log, file_decoded, file_lines, framed,
    law_torn_line_is_dropped, line_texts, line_views, lines_readable, lines_writable, DecodedEngineFile,
    EngineLogDecodeError, LineView, LogLine,
};
use crate::run_state::CoordinatorState;
use crate::wire::NEWLINE;
use vstd::prelude::*;
use vstd::string::*;

verus! {

/// What kept the standalone host from running or resuming.
#[derive(Debug)]
pub enum HostError {
    /// An execution's event file does not decode.
    Events(EngineLogDecodeError),
    /// A value the masker recognizes appears in the serialized graph: it is
    /// not persisted, and the run is not started.
    SecretInGraph,
    /// The run's public stream does not export its logs.
    Export(ExportError),
    Coordinator(CoordinatorError),
    /// The coordinator finished the root invocation without a final
    /// execution report.
    MissingExecutionReport,
}

/// Why the bytes of an event file are no log.
pub type EventsDecodeError = EngineLogDecodeError;

/// One successful decode of an event file.
pub type DecodedEvents = DecodedEngineFile;

/// Decode an event file's bytes: one record per line, under the strict
/// torn-line rule. `foreign` is the places of the lines whose body is no
/// engine event.
pub fn decode_events(bytes: &[u8], foreign: &Vec<usize>) -> (decoded: Result<
    DecodedEvents,
    EventsDecodeError,
>)
    ensures
        decodes_to(file_lines(decoded), file_decoded(bytes@, foreign@)),
        decoded matches Ok(file) ==> {
            &&& file.clean_len == clean_from(bytes@, 0)
            &&& file.torn == (file.clean_len < bytes@.len())
        },
{
    decode_engine_log(bytes, foreign)
}

/// Render a log as an event file, in one piece, with each record's recording
/// time. Nothing when a decimal in a line is no number.
pub fn encode_events(lines: &Vec<LogLine>) -> (bytes: Option<Vec<u8>>)
    ensures
        bytes is Some <==> lines_writable(line_views(lines@)),
        bytes matches Some(bytes) ==> {
            &&& bytes@ == framed(line_texts(line_views(lines@)))
            &&& clean_from(bytes@, 0) == bytes@.len()
            &&& lines_readable(line_views(lines@)) ==> file_decoded(bytes@, Seq::empty()) == Ok::<
                Seq<LineView>,
                EngineLogDecodeError,
            >(line_views(lines@))
        },
{
    encode_engine_log(lines)
}

/// A log an event file was rendered from is what the file decodes to, with
/// nothing torn; a line a crash cut short behind it changes nothing but that
/// the file is torn.
pub proof fn law_event_file_round_trip(
    lines: Seq<LineView>,
    bytes: Seq<u8>,
    tail: Seq<u8>,
    whole: DecodedEvents,
    cut: DecodedEvents,
)
    requires
        clean_from(bytes, 0) == bytes.len(),
        file_decoded(bytes, Seq::empty()) == Ok::<Seq<LineView>, EngineLogDecodeError>(lines),
        tail.len() > 0,
        !tail.contains(NEWLINE),
        decodes_to(file_lines(Ok(whole)), file_decoded(bytes, Seq::empty())),
        whole.clean_len == clean_from(bytes, 0),
        whole.torn == (whole.clean_len < bytes.len()),
        decodes_to(file_lines(Ok(cut)), file_decoded(bytes + tail, Seq::empty())),
        cut.clean_len == clean_from(bytes + tail, 0),
        cut.torn == (cut.clean_len < (bytes + tail).len()),
    ensures
        line_views(whole.lines@) == lines,
        whole.clean_len == bytes.len(),
        !whole.torn,
        line_views(cut.lines@) == lines,
        cut.clean_len == bytes.len(),
        cut.torn,
        file_decoded(bytes + tail, Seq::empty()) == Ok::<Seq<LineView>, EngineLogDecodeError>(
            lines,
        ),
{
    law_torn_line_is_dropped(bytes, tail);
}

/// Decode an event file for the host.
pub fn read_events(bytes: &[u8], foreign: &Vec<usize>) -> (decoded: Result<
    DecodedEvents,
    HostError,
>)
    ensures
        match (decoded, file_decoded(bytes@, foreign@)) {
            (Ok(file), Ok(lines)) => line_views(file.lines@) == lines && file.clean_len
                == clean_from(bytes@, 0) && file.torn == (file.clean_len < bytes@.len()),
            (Err(error), Err(source)) => error == HostError::Events(source),
            _ => false,
        },
{
    match decode_events(bytes, foreign) {
        Ok(file) => Ok(file),
        Err(source) => Err(HostError::Events(source)),
    }
}

/// A middleware a root graph's policy asks for.
#[derive(Clone, Copy, Debug, PartialEq, Eq, Structural)]
pub enum PolicyMiddleware {
    /// The failure circuit breaker, tripped at a limit.
    CircuitBreaker { limit: u32 },
}

/// The middleware a graph's policy asks for.
pub open spec fn policy_of(graph: Graph) -> Seq<PolicyMiddleware> {
    match graph.policy.loop_restart_signature_limit {
        Some(limit) => seq![PolicyMiddleware::CircuitBreaker { limit }],
        None => Seq::empty(),
    }
}

/// The decision middleware a root graph's run policy asks for: the failure
/// circuit breaker when it has a limit. It is installed ahead of the host's
/// own middleware on run and on resume, so the recorded chain matches.
pub fn policy_middleware(graph: &Graph) -> (chain: Vec<PolicyMiddleware>)
    ensures
        chain@ == policy_of(*graph),
{
    let mut chain: Vec<PolicyMiddleware> = Vec::new();
    if let Some(limit) = graph.policy.loop_restart_signature_limit {
        chain.push(PolicyMiddleware::CircuitBreaker { limit });
    }
    assert(chain@ =~= policy_of(*graph));
    chain
}

/// Whether options are what a graph's policy asks for.
pub open spec fn asked_options(
    graph: Graph,
    max_executions: u32,
    options: Result<CoordinatorOptions, HostError>,
) -> bool {
    match graph.policy.max_invocations {
        Some(limit) => match limit_refused(limit) {
            Some(error) => options == Err::<CoordinatorOptions, HostError>(
                HostError::Coordinator(CoordinatorError::InvalidInvocationLimit(error)),
            ),
            None => options == Ok::<CoordinatorOptions, HostError>(
                CoordinatorOptions { max_invocations: limit, max_executions },
            ),
        },
        None => options == Ok::<CoordinatorOptions, HostError>(
            CoordinatorOptions { max_invocations: DEFAULT_MAX_INVOCATIONS, max_executions },
        ),
    }
}

/// The coordinator options a root graph's run policy asks for: its
/// invocation limit when it declares one, else the default. A limit above
/// the hard ceiling or a disabled limit is refused before the run starts.
/// `max_executions` is the engine's own limit.
pub fn coordinator_options(graph: &Graph, max_executions: u32) -> (options: Result<
    CoordinatorOptions,
    HostError,
>)
    ensures
        asked_options(*graph, max_executions, options),
{
    let options = CoordinatorOptions::new(max_executions);
    match graph.policy.max_invocations {
        Some(limit) => match options.with_max_invocations(limit) {
            Ok(options) => Ok(options),
            Err(error) => Err(
                HostError::Coordinator(CoordinatorError::InvalidInvocationLimit(error)),
            ),
        },
        None => Ok(options),
    }
}

/// The options a resume runs under: those the stored root graph asks for, or
/// the default when the log has no root yet.
pub fn resume_options(root: Option<&Graph>, max_executions: u32) -> (options: Result<
    CoordinatorOptions,
    HostError,
>)
    ensures
        match root {
            Some(graph) => asked_options(*graph, max_executions, options),
            None => options == Ok::<CoordinatorOptions, HostError>(
                CoordinatorOptions { max_invocations: DEFAULT_MAX_INVOCATIONS, max_executions },
            ),
        },
{
    match root {
        Some(graph) => coordinator_options(graph, max_executions),
        None => Ok(CoordinatorOptions::new(max_executions)),
    }
}

/// A run resumes under the options it was started with: the graph decides,
/// on run and on resume.
pub proof fn law_resume_keeps_the_options(
    graph: Graph,
    max_executions: u32,
    started: Result<CoordinatorOptions, HostError>,
    resumed: Result<CoordinatorOptions, HostError>,
)
    requires
        asked_options(graph, max_executions, started),
        asked_options(graph, max_executions, resumed),
    ensures
        started == resumed,
{
}

/// Everything a host hands the coordinator for one fresh run: the root
/// graph, the pre-lowered child graphs a nested-workflow step may invoke,
/// and the decision middleware it adds after the graph's own policy chain.
/// A resume must install the same middleware.
#[derive(Debug)]
pub struct HostRun {
    pub graph: Graph,
    pub children: Vec<Graph>,
    pub middleware: Vec<MiddlewareEntry>,
}

impl HostRun {
    /// A root graph alone: no children, no middleware.
    pub fn new(graph: Graph) -> (run: HostRun)
        ensures
            run.graph == graph,
            run.children@.len() == 0,
            run.middleware@.len() == 0,
    {
        HostRun { graph, children: Vec::new(), middleware: Vec::new() }
    }

    #[must_use]
    pub fn with_children(self, children: Vec<Graph>) -> (run: HostRun)
        ensures
            run == (HostRun { children, ..self }),
    {
        HostRun { graph: self.graph, children, middleware: self.middleware }
    }

    #[must_use]
    pub fn with_middleware(self, middleware: MiddlewareEntry) -> (run: HostRun)
        ensures
            run.graph == self.graph,
            run.children == self.children,
            run.middleware@ == self.middleware@.push(middleware),
    {
        let mut chain = self.middleware;
        chain.push(middleware);
        HostRun { graph: self.graph, children: self.children, middleware: chain }
    }
}

/// What registering a graph comes to: a secret in it is the graph's own
/// fault.
pub fn registered(digest: Result<GraphDigest, CoordinatorError>) -> (registered: Result<
    GraphDigest,
    HostError,
>)
    ensures
        registered == (match digest {
            Ok(digest) => Ok::<GraphDigest, HostError>(digest),
            Err(CoordinatorError::SecretInDurableData) => Err(HostError::SecretInGraph),
            Err(error) => Err(HostError::Coordinator(error)),
        }),
{
    match digest {
        Ok(digest) => Ok(digest),
        Err(CoordinatorError::SecretInDurableData) => Err(HostError::SecretInGraph),
        Err(error) => Err(HostError::Coordinator(error)),
    }
}

/// The root invocation's registered graph. Nothing when the log has no root
/// invocation yet.
pub fn stored_root_graph(state: &CoordinatorState) -> (digest: Option<GraphDigest>)
    ensures
        digest == (match state.spec_invocation(InvocationId::root()) {
            Some(root) => Some(root.declaration.graph),
            None => None,
        }),
{
    match state.invocation(InvocationId::root()) {
        Some(root) => Some(root.declaration.graph),
        None => None,
    }
}

/// The final execution report a finished root must have left.
pub fn root_report<R>(report: Option<R>) -> (taken: Result<R, HostError>)
    ensures
        match (taken, report) {
            (Ok(taken), Some(report)) => taken == report,
            (Err(error), None) => error is MissingExecutionReport,
            _ => false,
        },
{
    match report {
        Some(report) => Ok(report),
        None => Err(HostError::MissingExecutionReport),
    }
}

} // verus!
