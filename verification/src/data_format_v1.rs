//! Version 1 of the wire format: a text envelope that carries the name
//! table, the scope table of the batch, and the span records in base64.

use crate::base64_text::{base64_encode, base64_text};
use crate::decoding::{
    base64_unambiguous, decodable, decode_payload, lemma_decode_payload, resolved_batch,
};
use crate::le_bytes::{
    lemma_u32_le_round_trip, lemma_u64_le_round_trip, put_u32_le, put_u64_le, u32_le_bytes,
    u64_le_bytes,
};
use crate::registry::{
    intern_all, interned, lemma_intern_all_distinct, lemma_intern_all_holds, lemma_intern_all_len,
    lemma_intern_all_prefix, lemma_prefix_index,
    names_of, NameRegistry,
};
use crate::types::SpanMsg;
use vstd::prelude::*;
use vstd::string::StringExecFns;

verus! {

/// Room that the payload and the record buffer start with.
pub const OUT_BODY_CAP: usize = 4_194_304;

/// Ends a section of the envelope.
pub const OUT_BUF_DELIM: char = '\n';

/// Ends a token of a table.
pub const OUT_TOK_DELIM: char = ',';

/// Identifies the wire format.
pub const VERSION_BYTES: &'static str = "1001";

/// Bytes of one span record.
pub const RECORD_LEN: usize = 36;

/// The characters of the version tag.
pub open spec fn version_tag() -> Seq<char> {
    seq!['1', '0', '0', '1']
}

/// A table as text: each entry followed by a comma, in order.
pub open spec fn table_text(entries: Seq<Seq<char>>) -> Seq<char>
    decreases entries.len(),
{
    if entries.len() == 0 {
        Seq::empty()
    } else {
        table_text(entries.drop_last()) + entries.last().push(OUT_TOK_DELIM)
    }
}

/// The scope of each span, in batch order.
pub open spec fn scopes_of(spans: Seq<SpanMsg>) -> Seq<Seq<char>> {
    spans.map_values(|span: SpanMsg| span.scope@)
}

/// The scope table of a batch: its distinct scopes in first-seen order.
pub open spec fn scope_table(spans: Seq<SpanMsg>) -> Seq<Seq<char>> {
    intern_all(Seq::empty(), scopes_of(spans))
}

/// The 36 bytes of one record: span id, parent id, name id, scope id,
/// seconds and nanoseconds, each little-endian.
pub open spec fn record_bytes(span: SpanMsg, scope_id: u32) -> Seq<u8> {
    u64_le_bytes(span.span_id) + u64_le_bytes(span.parent_id) + u32_le_bytes(span.name_id)
        + u32_le_bytes(scope_id) + u64_le_bytes(span.duration.secs) + u32_le_bytes(
        span.duration.nanos,
    )
}

/// The records of `spans` in order, each with the position of its scope in
/// `scopes`.
pub open spec fn records_bytes(spans: Seq<SpanMsg>, scopes: Seq<Seq<char>>) -> Seq<u8>
    decreases spans.len(),
{
    if spans.len() == 0 {
        Seq::empty()
    } else {
        records_bytes(spans.drop_last(), scopes) + record_bytes(
            spans.last(),
            scopes.index_of(spans.last().scope@) as u32,
        )
    }
}

/// The binary body of a batch, before it is rendered as base64.
pub open spec fn body_bytes(spans: Seq<SpanMsg>) -> Seq<u8> {
    records_bytes(spans, scope_table(spans))
}

/// The envelope: version tag, name table, newline, scope table, newline,
/// body text.
pub open spec fn envelope_text(
    names: Seq<Seq<char>>,
    scopes: Seq<Seq<char>>,
    body: Seq<char>,
) -> Seq<char> {
    version_tag() + table_text(names) + seq![OUT_BUF_DELIM] + table_text(scopes)
        + seq![OUT_BUF_DELIM] + body
}

/// The payload for a batch of spans and a snapshot of the name table.
pub open spec fn payload_text(spans: Seq<SpanMsg>, names: Seq<Seq<char>>) -> Seq<char> {
    envelope_text(names, scope_table(spans), base64_text(body_bytes(spans)))
}

/// A record has 36 bytes.
pub proof fn lemma_record_len(span: SpanMsg, scope_id: u32)
    ensures
        record_bytes(span, scope_id).len() == RECORD_LEN,
{
    lemma_u64_le_round_trip(span.span_id);
    lemma_u64_le_round_trip(span.parent_id);
    lemma_u32_le_round_trip(span.name_id);
    lemma_u32_le_round_trip(scope_id);
    lemma_u64_le_round_trip(span.duration.secs);
    lemma_u32_le_round_trip(span.duration.nanos);
}

/// A batch has at most as many scopes as spans: a batch of up to 2^32
/// spans never runs out of scope ids.
pub proof fn lemma_scope_table_len(spans: Seq<SpanMsg>)
    ensures
        scope_table(spans).len() <= spans.len(),
{
    lemma_intern_all_len(Seq::empty(), scopes_of(spans));
}

/// An empty batch has an empty scope table and an empty body: its payload
/// is the version tag, the name table, two newlines, and the text of no
/// bytes.
pub proof fn lemma_empty_batch(names: Seq<Seq<char>>)
    ensures
        scope_table(Seq::empty()) == Seq::<Seq<char>>::empty(),
        body_bytes(Seq::empty()) == Seq::<u8>::empty(),
        payload_text(Seq::empty(), names) == version_tag() + table_text(names) + seq![
            OUT_BUF_DELIM,
            OUT_BUF_DELIM,
        ] + base64_text(Seq::empty()),
{
    let spans = Seq::<SpanMsg>::empty();
    assert(scopes_of(spans) =~= Seq::<Seq<char>>::empty());
    assert(table_text(scope_table(spans)) =~= Seq::<char>::empty());
    assert(payload_text(spans, names) =~= version_tag() + table_text(names) + seq![
        OUT_BUF_DELIM,
        OUT_BUF_DELIM,
    ] + base64_text(Seq::empty()));
}

/// Scope ids tell the scopes of a batch apart: the id in a record is the
/// position of the span's scope in the scope table, and two spans have the
/// same id exactly when they have the same scope.
pub proof fn lemma_scope_ids(spans: Seq<SpanMsg>, i: int, j: int)
    requires
        0 <= i < spans.len(),
        0 <= j < spans.len(),
    ensures
        0 <= scope_table(spans).index_of(spans[i].scope@) < scope_table(spans).len(),
        scope_table(spans)[scope_table(spans).index_of(spans[i].scope@)] == spans[i].scope@,
        scope_table(spans).index_of(spans[i].scope@) == scope_table(spans).index_of(
            spans[j].scope@,
        ) <==> spans[i].scope@ == spans[j].scope@,
{
    lemma_intern_all_holds(Seq::empty(), scopes_of(spans), i);
    lemma_intern_all_holds(Seq::empty(), scopes_of(spans), j);
}

/// One step of building the scope table: the table after `i + 1` spans is
/// the table after `i` spans with the next scope interned, it is a prefix
/// of the whole table, and the next scope has the same position in both.
proof fn lemma_scope_table_step(spans: Seq<SpanMsg>, i: int)
    requires
        0 <= i < spans.len(),
    ensures
        scope_table(spans.take(i + 1)) == interned(scope_table(spans.take(i)), spans[i].scope@),
        scope_table(spans.take(i + 1)).is_prefix_of(scope_table(spans)),
        scope_table(spans).no_duplicates(),
        scope_table(spans.take(i + 1)).contains(spans[i].scope@),
        scope_table(spans.take(i + 1)).index_of(spans[i].scope@) == scope_table(spans).index_of(
            spans[i].scope@,
        ),
{
    let scopes = scopes_of(spans);
    assert(scopes_of(spans.take(i + 1)) =~= scopes.take(i + 1));
    assert(scopes_of(spans.take(i)) =~= scopes.take(i));
    assert(scopes.take(i + 1).drop_last() =~= scopes.take(i));
    lemma_intern_all_prefix(Seq::empty(), scopes, i + 1);
    lemma_intern_all_distinct(Seq::empty(), scopes);
    let short = scope_table(spans.take(i + 1));
    let before = scope_table(spans.take(i));
    if before.contains(spans[i].scope@) {
    } else {
        assert(short[before.len() as int] == spans[i].scope@);
    }
    lemma_prefix_index(short, scope_table(spans), spans[i].scope@);
}

pub struct EncoderV1;

impl EncoderV1 {
    /// Serialises a batch of spans, together with a snapshot of the name
    /// table, into one text payload. Neither argument is changed. Scope ids
    /// are 32 bits wide, so the batch may hold at most 2^32 different
    /// scopes.
    pub fn encode(spans: &[SpanMsg], span_name_by_id: &[String]) -> (out_body: String)
        requires
            scope_table(spans@).len() <= u32::MAX + 1,
        ensures
            out_body@ == payload_text(spans@, names_of(span_name_by_id@)),
            decodable(spans@, names_of(span_name_by_id@)) ==> decode_payload(out_body@) == Some(
                resolved_batch(spans@, names_of(span_name_by_id@)),
            ),
    {
        let mut out_body = String::with_capacity(OUT_BODY_CAP);
        out_body.append(VERSION_BYTES);
        proof {
            reveal_strlit("1001");
            assert(out_body@ =~= version_tag());
        }

        // Build the scope registry and the span buffer.
        let mut scopes = NameRegistry::new();
        let mut span_buf: Vec<u8> = Vec::with_capacity(OUT_BODY_CAP);
        let mut i: usize = 0;
        while i < spans.len()
            invariant
                i <= spans.len(),
                scopes.wf(),
                scopes@ == scope_table(spans@.take(i as int)),
                span_buf@ == records_bytes(spans@.take(i as int), scope_table(spans@)),
                span_buf@.len() <= isize::MAX,
                scope_table(spans@).len() <= u32::MAX + 1,
            decreases spans.len() - i,
        {
            let span = &spans[i];
            proof {
                lemma_scope_table_step(spans@, i as int);
            }
            let scope_id = scopes.intern(span.scope);
            Self::write_span(span, scope_id, &mut span_buf);
            proof {
                assert(spans@.take(i + 1).drop_last() =~= spans@.take(i as int));
            }
            i += 1;
        }
        assert(spans@.take(i as int) =~= spans@);

        // Write the name table.
        let ghost names = names_of(span_name_by_id@);
        let mut j: usize = 0;
        while j < span_name_by_id.len()
            invariant
                j <= span_name_by_id.len(),
                names == names_of(span_name_by_id@),
                out_body@ == version_tag() + table_text(names.take(j as int)),
            decreases span_name_by_id.len() - j,
        {
            out_body.append(span_name_by_id[j].as_str());
            out_body.push(OUT_TOK_DELIM);
            proof {
                assert(names.take(j + 1).drop_last() =~= names.take(j as int));
                assert(out_body@ =~= version_tag() + table_text(names.take(j + 1)));
            }
            j += 1;
        }
        assert(names.take(j as int) =~= names);

        // Write the scope table.
        out_body.push(OUT_BUF_DELIM);
        let scope_name_by_id = scopes.names();
        let ghost head = version_tag() + table_text(names) + seq![OUT_BUF_DELIM];
        let ghost table = names_of(scope_name_by_id@);
        assert(out_body@ =~= head);
        let mut k: usize = 0;
        while k < scope_name_by_id.len()
            invariant
                k <= scope_name_by_id.len(),
                table == names_of(scope_name_by_id@),
                out_body@ == head + table_text(table.take(k as int)),
            decreases scope_name_by_id.len() - k,
        {
            out_body.append(scope_name_by_id[k].as_str());
            out_body.push(OUT_TOK_DELIM);
            proof {
                assert(table.take(k + 1).drop_last() =~= table.take(k as int));
                assert(out_body@ =~= head + table_text(table.take(k + 1)));
            }
            k += 1;
        }
        assert(table.take(k as int) =~= table);

        // Write the spans.
        out_body.push(OUT_BUF_DELIM);
        let encoded = base64_encode(&span_buf);
        out_body.append(encoded.as_str());
        proof {
            assert(out_body@ =~= payload_text(spans@, names));
            if decodable(spans@, names) {
                assert(base64_unambiguous(body_bytes(spans@)));
                lemma_decode_payload(spans@, names);
            }
        }
        out_body
    }

    /// Appends the record of `s` to `buf`.
    pub fn write_span(s: &SpanMsg, scope_id: u32, buf: &mut Vec<u8>)
        ensures
            final(buf)@ == old(buf)@ + record_bytes(*s, scope_id),
            final(buf)@.len() == old(buf)@.len() + RECORD_LEN,
            final(buf)@.len() <= isize::MAX,
    {
        put_u64_le(buf, s.span_id);
        put_u64_le(buf, s.parent_id);
        put_u32_le(buf, s.name_id);
        put_u32_le(buf, scope_id);
        put_u64_le(buf, s.duration.secs);
        put_u32_le(buf, s.duration.nanos);
        proof {
            lemma_record_len(*s, scope_id);
            assert(buf@ =~= old(buf)@ + record_bytes(*s, scope_id));
        }
    }
}

} // verus!
