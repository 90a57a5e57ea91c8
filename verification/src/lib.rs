//! An in-process collector for span timings: it interns span names, turns
//! span lifecycle events into completed-span messages, batches them, and
//! serialises batches into a compact text payload.

pub mod base64_text;
pub mod data_format_v1;
pub mod decoding;
pub mod id_map;
pub mod le_bytes;
pub mod prelude;
pub mod registry;
pub mod span_buffer;
pub mod string_specs;
pub mod tracing_layer;
pub mod types;

use crate::data_format_v1::{payload_text, scope_table, EncoderV1};
use crate::decoding::{decodable, decode_payload, resolved_batch};
use crate::registry::names_of;
use crate::span_buffer::{SharedSpans, SpanProcessor};
use crate::tracing_layer::AgentTracingLayer;
use crate::types::SpanMsg;
use vstd::prelude::*;

verus! {

/// Messages that the channel from the tracing layer to the span processor
/// holds before a sender has to wait.
pub const CHANNEL_CAP: usize = 4096;

/// The parts of a collector, each of them empty.
pub struct AgentPipeline {
    /// Records spans and sends them to the processor.
    pub tracing_layer: AgentTracingLayer,
    /// Gathers spans before they reach the shared buffer.
    pub span_processor: SpanProcessor,
    /// The spans that the server hands out.
    pub traces: SharedSpans,
}

/// Sets up the collector.
pub struct DiagnosticExplorerAgentPlugin;

impl DiagnosticExplorerAgentPlugin {
    /// The registry and the buffers that a collector starts with.
    pub fn build(&self) -> (pipeline: AgentPipeline)
        ensures
            pipeline.tracing_layer.wf(),
            pipeline.tracing_layer@ == Seq::<Seq<char>>::empty(),
            pipeline.span_processor@ == Seq::<SpanMsg>::empty(),
            pipeline.traces@ == Seq::<SpanMsg>::empty(),
    {
        AgentPipeline {
            tracing_layer: AgentTracingLayer::new(),
            span_processor: SpanProcessor::new(),
            traces: SharedSpans::new(),
        }
    }
}

/// Serves one export: the payload for all the spans in the shared buffer,
/// which is left empty. The caller holds the buffer for the whole call, so
/// no span can arrive between the reading and the clearing.
pub fn get_spans(traces: &mut SharedSpans, name_by_id: &[String]) -> (encoded: String)
    requires
        scope_table(old(traces)@).len() <= u32::MAX + 1,
    ensures
        encoded@ == payload_text(old(traces)@, names_of(name_by_id@)),
        decodable(old(traces)@, names_of(name_by_id@)) ==> decode_payload(encoded@) == Some(
            resolved_batch(old(traces)@, names_of(name_by_id@)),
        ),
        final(traces)@ == Seq::<SpanMsg>::empty(),
{
    let encoded = EncoderV1::encode(traces.buf.as_slice(), name_by_id);
    traces.buf.clear();
    encoded
}

} // verus!
