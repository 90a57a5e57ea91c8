//! The consumer side of the collector: a local buffer that gathers spans
//! and hands them on in batches, and the shared buffer that holds the spans
//! not yet exported.

use crate::types::SpanMsg;
use vstd::prelude::*;

verus! {

/// Spans that the processor gathers before it hands them on.
pub const SPAN_LOCAL_BUF_CAP: usize = 10_000;

/// Room that the shared buffer starts with.
pub const SPAN_SHARED_BUF_CAP: usize = 100_000;

/// The spans that wait for the next export, in the order in which the
/// processor handed them on.
pub struct SharedSpans {
    pub buf: Vec<SpanMsg>,
}

impl View for SharedSpans {
    type V = Seq<SpanMsg>;

    open spec fn view(&self) -> Seq<SpanMsg> {
        self.buf@
    }
}

impl SharedSpans {
    /// An empty buffer.
    pub fn new() -> (traces: SharedSpans)
        ensures
            traces@ == Seq::<SpanMsg>::empty(),
    {
        SharedSpans { buf: Vec::with_capacity(SPAN_SHARED_BUF_CAP) }
    }

    /// Moves a whole batch to the end of the buffer, and leaves the batch
    /// empty.
    pub fn append(&mut self, batch: &mut Vec<SpanMsg>)
        ensures
            final(self)@ == old(self)@ + old(batch)@,
            final(batch)@ == Seq::<SpanMsg>::empty(),
    {
        self.buf.append(batch);
    }
}

/// The spans that the processor hands on when it receives `msg` with
/// `local` in its buffer: all of them, once the buffer has reached its
/// capacity; none before.
pub open spec fn batch_after(local: Seq<SpanMsg>, msg: SpanMsg) -> Option<Seq<SpanMsg>> {
    if local.len() + 1 >= SPAN_LOCAL_BUF_CAP {
        Some(local.push(msg))
    } else {
        None
    }
}

/// The spans that the processor keeps when it receives `msg` with `local`
/// in its buffer.
pub open spec fn local_after(local: Seq<SpanMsg>, msg: SpanMsg) -> Seq<SpanMsg> {
    if local.len() + 1 >= SPAN_LOCAL_BUF_CAP {
        Seq::empty()
    } else {
        local.push(msg)
    }
}

/// The shared buffer and the local buffer after the processor received
/// `msgs` in turn and every batch was appended to the shared buffer.
pub open spec fn after_receiving(
    shared: Seq<SpanMsg>,
    local: Seq<SpanMsg>,
    msgs: Seq<SpanMsg>,
) -> (Seq<SpanMsg>, Seq<SpanMsg>)
    decreases msgs.len(),
{
    if msgs.len() == 0 {
        (shared, local)
    } else {
        let (shared, local) = after_receiving(shared, local, msgs.drop_last());
        match batch_after(local, msgs.last()) {
            Some(batch) => (shared + batch, local_after(local, msgs.last())),
            None => (shared, local_after(local, msgs.last())),
        }
    }
}

/// No span is lost or moved on its way to the export: the shared buffer,
/// followed by the local buffer, always holds the spans that were there
/// before and then the spans received, in the order of their arrival; and
/// the local buffer stays below its capacity.
pub proof fn lemma_receiving_keeps_every_span(
    shared: Seq<SpanMsg>,
    local: Seq<SpanMsg>,
    msgs: Seq<SpanMsg>,
)
    requires
        local.len() < SPAN_LOCAL_BUF_CAP,
    ensures
        after_receiving(shared, local, msgs).0 + after_receiving(shared, local, msgs).1 == shared
            + local + msgs,
        after_receiving(shared, local, msgs).1.len() < SPAN_LOCAL_BUF_CAP,
    decreases msgs.len(),
{
    if msgs.len() == 0 {
        assert(shared + local + msgs =~= shared + local);
    } else {
        let head = msgs.drop_last();
        lemma_receiving_keeps_every_span(shared, local, head);
        let (shared_before, local_before) = after_receiving(shared, local, head);
        let (shared_after, local_after) = after_receiving(shared, local, msgs);
        assert(shared_after + local_after =~= (shared_before + local_before).push(msgs.last()));
        assert((shared + local + head).push(msgs.last()) =~= shared + local + msgs);
    }
}

/// The single consumer of the ingestion channel. It keeps the spans it
/// receives in a buffer of its own, so that the shared buffer is locked
/// once per batch and not once per span.
pub struct SpanProcessor {
    buf: Vec<SpanMsg>,
}

impl View for SpanProcessor {
    type V = Seq<SpanMsg>;

    /// The spans received since the last batch, in order.
    closed spec fn view(&self) -> Seq<SpanMsg> {
        self.buf@
    }
}

impl SpanProcessor {
    /// A processor that holds no span.
    pub fn new() -> (processor: SpanProcessor)
        ensures
            processor@ == Seq::<SpanMsg>::empty(),
    {
        SpanProcessor { buf: Vec::with_capacity(SPAN_LOCAL_BUF_CAP) }
    }

    /// Takes one span from the channel. Once the local buffer has reached
    /// its capacity, all of it comes back as a batch for the shared buffer,
    /// and the local buffer starts over empty.
    pub fn receive(&mut self, msg: SpanMsg) -> (batch: Option<Vec<SpanMsg>>)
        ensures
            final(self)@ == local_after(old(self)@, msg),
            match batch {
                Some(full) => batch_after(old(self)@, msg) == Some(full@),
                None => batch_after(old(self)@, msg) is None,
            },
            final(self)@.len() < SPAN_LOCAL_BUF_CAP,
    {
        self.buf.push(msg);
        if self.buf.len() >= SPAN_LOCAL_BUF_CAP {
            let mut full: Vec<SpanMsg> = Vec::with_capacity(SPAN_LOCAL_BUF_CAP);
            full.append(&mut self.buf);
            Some(full)
        } else {
            None
        }
    }
}

} // verus!
