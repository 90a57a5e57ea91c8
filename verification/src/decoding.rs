//! Reading a payload back. Nothing here runs: these functions say what a
//! reader of the wire format recovers, and the lemmas show that it is the
//! batch that was encoded.

use crate::base64_text::base64_text;
use crate::data_format_v1::{
    body_bytes, envelope_text, payload_text, record_bytes, records_bytes, scope_table, scopes_of,
    table_text, version_tag, OUT_BUF_DELIM, OUT_TOK_DELIM, RECORD_LEN,
};
use crate::le_bytes::{
    lemma_u32_le_round_trip, lemma_u64_le_round_trip, u32_from_le_bytes, u32_le_bytes,
    u64_from_le_bytes, u64_le_bytes,
};
use crate::registry::{lemma_intern_all_distinct, lemma_intern_all_holds};
use crate::types::{SpanDuration, SpanMsg};
use vstd::prelude::*;

verus! {

/// The three parts of an envelope.
pub struct Envelope {
    pub names: Seq<Seq<char>>,
    pub scopes: Seq<Seq<char>>,
    pub body: Seq<char>,
}

/// The position of the first `delim` in `text`, or the length of `text` if
/// it holds none.
pub open spec fn first_index(text: Seq<char>, delim: char) -> nat
    decreases text.len(),
{
    if text.len() == 0 || text[0] == delim {
        0
    } else {
        1 + first_index(text.skip(1), delim)
    }
}

/// The entries of a table: the text is cut after each comma. A text that
/// does not end with a comma is no table.
pub open spec fn parse_table(text: Seq<char>) -> Option<Seq<Seq<char>>>
    decreases text.len(),
{
    if text.len() == 0 {
        Some(Seq::empty())
    } else {
        let end = first_index(text, OUT_TOK_DELIM);
        if end >= text.len() {
            None
        } else {
            match parse_table(text.skip(end + 1 as int)) {
                Some(rest) => Some(seq![text.take(end as int)] + rest),
                None => None,
            }
        }
    }
}

/// The parts of an envelope: after the version tag, the name table runs to
/// the first newline, the scope table to the next, and the body to the end.
pub open spec fn parse_envelope(text: Seq<char>) -> Option<Envelope> {
    if text.len() < 4 || text.take(4) != version_tag() {
        None
    } else {
        let tables = text.skip(4);
        let names_end = first_index(tables, OUT_BUF_DELIM);
        let rest = tables.skip(names_end + 1 as int);
        let scopes_end = first_index(rest, OUT_BUF_DELIM);
        if names_end >= tables.len() || scopes_end >= rest.len() {
            None
        } else {
            match (
                parse_table(tables.take(names_end as int)),
                parse_table(rest.take(scopes_end as int)),
            ) {
                (Some(names), Some(scopes)) => Some(
                    Envelope { names, scopes, body: rest.skip(scopes_end + 1 as int) },
                ),
                _ => None,
            }
        }
    }
}

/// No character of `text` is a delimiter of the envelope.
pub open spec fn delimiter_free(text: Seq<char>) -> bool {
    !text.contains(OUT_TOK_DELIM) && !text.contains(OUT_BUF_DELIM)
}

/// The first delimiter of a text that starts with `head`, then `delim`, is
/// right after `head`, if `head` holds none.
pub proof fn lemma_first_index(head: Seq<char>, delim: char, tail: Seq<char>)
    requires
        !head.contains(delim),
    ensures
        first_index(head.push(delim) + tail, delim) == head.len(),
    decreases head.len(),
{
    let text = head.push(delim) + tail;
    if head.len() == 0 {
        assert(text[0] == delim);
    } else {
        assert(text[0] == head[0]);
        assert(head.contains(head[0]));
        assert(text.skip(1) =~= head.skip(1).push(delim) + tail);
        assert forall|i: int| 0 <= i < head.skip(1).len() implies head.skip(1)[i] != delim by {
            assert(head.contains(head[i + 1]));
        }
        lemma_first_index(head.skip(1), delim, tail);
    }
}

/// A table as text starts with its first entry and a comma, and goes on
/// with the text of the other entries.
pub proof fn lemma_table_text_front(entries: Seq<Seq<char>>)
    requires
        entries.len() > 0,
    ensures
        table_text(entries) == entries[0].push(OUT_TOK_DELIM) + table_text(entries.skip(1)),
    decreases entries.len(),
{
    if entries.len() == 1 {
        assert(entries.skip(1) =~= Seq::<Seq<char>>::empty());
        assert(entries.drop_last() =~= Seq::<Seq<char>>::empty());
        assert(table_text(entries) =~= entries[0].push(OUT_TOK_DELIM) + table_text(
            entries.skip(1),
        ));
    } else {
        lemma_table_text_front(entries.drop_last());
        assert(entries.skip(1).drop_last() =~= entries.drop_last().skip(1));
        assert(table_text(entries) =~= entries[0].push(OUT_TOK_DELIM) + table_text(
            entries.skip(1),
        ));
    }
}

/// The text of a table holds no newline if none of its entries does.
pub proof fn lemma_table_text_one_line(entries: Seq<Seq<char>>)
    requires
        forall|i: int| 0 <= i < entries.len() ==> !(#[trigger] entries[i]).contains(OUT_BUF_DELIM),
    ensures
        !table_text(entries).contains(OUT_BUF_DELIM),
    decreases entries.len(),
{
    if entries.len() > 0 {
        lemma_table_text_one_line(entries.drop_last());
        let head = table_text(entries.drop_last());
        let text = table_text(entries);
        assert forall|k: int| 0 <= k < text.len() implies text[k] != OUT_BUF_DELIM by {
            if k < head.len() {
                assert(head.contains(head[k]));
            } else if k < text.len() - 1 {
                assert(entries.last().contains(entries.last()[k - head.len()]));
            }
        }
    }
}

/// A table whose entries hold no comma is read back from its text.
pub proof fn lemma_parse_table(entries: Seq<Seq<char>>)
    requires
        forall|i: int| 0 <= i < entries.len() ==> !(#[trigger] entries[i]).contains(OUT_TOK_DELIM),
    ensures
        parse_table(table_text(entries)) == Some(entries),
    decreases entries.len(),
{
    if entries.len() > 0 {
        let text = table_text(entries);
        let first = entries[0];
        let rest = entries.skip(1);
        lemma_table_text_front(entries);
        lemma_first_index(first, OUT_TOK_DELIM, table_text(rest));
        assert(text.take(first.len() as int) =~= first);
        assert(text.skip(first.len() + 1 as int) =~= table_text(rest));
        lemma_parse_table(rest);
        assert(seq![first] + rest =~= entries);
    }
}

/// An envelope whose tables hold no delimiter inside an entry is read back
/// from its text, whatever the body is.
pub proof fn lemma_parse_envelope(names: Seq<Seq<char>>, scopes: Seq<Seq<char>>, body: Seq<char>)
    requires
        forall|i: int| 0 <= i < names.len() ==> delimiter_free(#[trigger] names[i]),
        forall|i: int| 0 <= i < scopes.len() ==> delimiter_free(#[trigger] scopes[i]),
    ensures
        parse_envelope(envelope_text(names, scopes, body)) == Some(
            Envelope { names, scopes, body },
        ),
{
    let text = envelope_text(names, scopes, body);
    let names_text = table_text(names);
    let scopes_text = table_text(scopes);
    let rest = scopes_text.push(OUT_BUF_DELIM) + body;
    let tables = names_text.push(OUT_BUF_DELIM) + rest;
    assert(text.take(4) =~= version_tag());
    assert(text.skip(4) =~= tables);
    lemma_table_text_one_line(names);
    lemma_table_text_one_line(scopes);
    lemma_first_index(names_text, OUT_BUF_DELIM, rest);
    assert(tables.skip(names_text.len() + 1 as int) =~= rest);
    assert(tables.take(names_text.len() as int) =~= names_text);
    lemma_first_index(scopes_text, OUT_BUF_DELIM, body);
    assert(rest.skip(scopes_text.len() + 1 as int) =~= body);
    assert(rest.take(scopes_text.len() as int) =~= scopes_text);
    lemma_parse_table(names);
    lemma_parse_table(scopes);
}

/// A span record as it stands in the body: the fields of a span, with ids
/// in place of the name and the scope.
pub struct Record {
    pub span_id: u64,
    pub parent_id: u64,
    pub name_id: u32,
    pub scope_id: u32,
    pub duration: SpanDuration,
}

/// A span as a reader recovers it, with its name and its scope looked up.
pub struct DecodedSpan {
    pub span_id: u64,
    pub parent_id: u64,
    pub name: Seq<char>,
    pub scope: Seq<char>,
    pub duration: SpanDuration,
}

/// The record that 36 bytes hold.
pub open spec fn parse_record(bytes: Seq<u8>) -> Record
    recommends
        bytes.len() == RECORD_LEN,
{
    Record {
        span_id: u64_from_le_bytes(bytes.subrange(0, 8)),
        parent_id: u64_from_le_bytes(bytes.subrange(8, 16)),
        name_id: u32_from_le_bytes(bytes.subrange(16, 20)),
        scope_id: u32_from_le_bytes(bytes.subrange(20, 24)),
        duration: SpanDuration {
            secs: u64_from_le_bytes(bytes.subrange(24, 32)),
            nanos: u32_from_le_bytes(bytes.subrange(32, 36)),
        },
    }
}

/// The records of a body, 36 bytes each. A body of any other length is
/// malformed.
pub open spec fn parse_records(bytes: Seq<u8>) -> Option<Seq<Record>> {
    if bytes.len() % (RECORD_LEN as nat) == 0 {
        Some(
            Seq::new(
                bytes.len() / (RECORD_LEN as nat),
                |i: int| parse_record(bytes.subrange(i * RECORD_LEN, (i + 1) * RECORD_LEN)),
            ),
        )
    } else {
        None
    }
}

/// The span that a record stands for, if both of its ids are in their
/// tables.
pub open spec fn resolve(
    record: Record,
    names: Seq<Seq<char>>,
    scopes: Seq<Seq<char>>,
) -> Option<DecodedSpan> {
    if record.name_id < names.len() && record.scope_id < scopes.len() {
        Some(
            DecodedSpan {
                span_id: record.span_id,
                parent_id: record.parent_id,
                name: names[record.name_id as int],
                scope: scopes[record.scope_id as int],
                duration: record.duration,
            },
        )
    } else {
        None
    }
}

/// The spans that the records stand for, if every id is in its table.
pub open spec fn resolve_all(
    records: Seq<Record>,
    names: Seq<Seq<char>>,
    scopes: Seq<Seq<char>>,
) -> Option<Seq<DecodedSpan>> {
    if forall|i: int|
        0 <= i < records.len() ==> (#[trigger] resolve(records[i], names, scopes)) is Some {
        Some(records.map_values(|record: Record| resolve(record, names, scopes).unwrap()))
    } else {
        None
    }
}

/// The bytes that a base64 text stands for, if it stands for any.
pub open spec fn base64_source(text: Seq<char>) -> Option<Seq<u8>> {
    if exists|bytes: Seq<u8>| #[trigger] base64_text(bytes) == text {
        Some(choose|bytes: Seq<u8>| #[trigger] base64_text(bytes) == text)
    } else {
        None
    }
}

/// The spans that a payload carries, in order; none where the payload is
/// malformed.
pub open spec fn decode_payload(text: Seq<char>) -> Option<Seq<DecodedSpan>> {
    match parse_envelope(text) {
        Some(envelope) => match base64_source(envelope.body) {
            Some(bytes) => match parse_records(bytes) {
                Some(records) => resolve_all(records, envelope.names, envelope.scopes),
                None => None,
            },
            None => None,
        },
        None => None,
    }
}

/// A span as it should come out of a payload: the name is looked up in the
/// name table, the scope is the span's own.
pub open spec fn resolved(span: SpanMsg, names: Seq<Seq<char>>) -> DecodedSpan {
    DecodedSpan {
        span_id: span.span_id,
        parent_id: span.parent_id,
        name: names[span.name_id as int],
        scope: span.scope@,
        duration: span.duration,
    }
}

/// A batch as it should come out of its payload.
pub open spec fn resolved_batch(spans: Seq<SpanMsg>, names: Seq<Seq<char>>) -> Seq<DecodedSpan> {
    spans.map_values(|span: SpanMsg| resolved(span, names))
}

/// A batch that can be read back from its payload: no name and no scope
/// holds a comma or a newline, and every name id is in the name table.
pub open spec fn decodable(spans: Seq<SpanMsg>, names: Seq<Seq<char>>) -> bool {
    &&& forall|i: int| 0 <= i < names.len() ==> delimiter_free(#[trigger] names[i])
    &&& forall|i: int| 0 <= i < spans.len() ==> delimiter_free((#[trigger] spans[i]).scope@)
    &&& forall|i: int| 0 <= i < spans.len() ==> (#[trigger] spans[i]).name_id < names.len()
}

/// The text of `bytes` is the text of no other byte string.
pub open spec fn base64_unambiguous(bytes: Seq<u8>) -> bool {
    forall|other: Seq<u8>| #[trigger] base64_text(other) == base64_text(bytes) ==> other == bytes
}

/// A record is read back from its bytes.
pub proof fn lemma_parse_record(span: SpanMsg, scope_id: u32)
    ensures
        record_bytes(span, scope_id).len() == RECORD_LEN,
        parse_record(record_bytes(span, scope_id)) == (Record {
            span_id: span.span_id,
            parent_id: span.parent_id,
            name_id: span.name_id,
            scope_id,
            duration: span.duration,
        }),
{
    let bytes = record_bytes(span, scope_id);
    lemma_u64_le_round_trip(span.span_id);
    lemma_u64_le_round_trip(span.parent_id);
    lemma_u32_le_round_trip(span.name_id);
    lemma_u32_le_round_trip(scope_id);
    lemma_u64_le_round_trip(span.duration.secs);
    lemma_u32_le_round_trip(span.duration.nanos);
    assert(bytes.subrange(0, 8) =~= u64_le_bytes(span.span_id));
    assert(bytes.subrange(8, 16) =~= u64_le_bytes(span.parent_id));
    assert(bytes.subrange(16, 20) =~= u32_le_bytes(span.name_id));
    assert(bytes.subrange(20, 24) =~= u32_le_bytes(scope_id));
    assert(bytes.subrange(24, 32) =~= u64_le_bytes(span.duration.secs));
    assert(bytes.subrange(32, 36) =~= u32_le_bytes(span.duration.nanos));
}

/// The records of a batch are read back from its body, one for each span
/// and in the same order.
pub proof fn lemma_parse_records(spans: Seq<SpanMsg>, scopes: Seq<Seq<char>>)
    ensures
        records_bytes(spans, scopes).len() == spans.len() * RECORD_LEN,
        parse_records(records_bytes(spans, scopes)) == Some(
            Seq::new(
                spans.len(),
                |i: int|
                    Record {
                        span_id: spans[i].span_id,
                        parent_id: spans[i].parent_id,
                        name_id: spans[i].name_id,
                        scope_id: scopes.index_of(spans[i].scope@) as u32,
                        duration: spans[i].duration,
                    },
            ),
        ),
    decreases spans.len(),
{
    let bytes = records_bytes(spans, scopes);
    let expected = Seq::new(
        spans.len(),
        |i: int|
            Record {
                span_id: spans[i].span_id,
                parent_id: spans[i].parent_id,
                name_id: spans[i].name_id,
                scope_id: scopes.index_of(spans[i].scope@) as u32,
                duration: spans[i].duration,
            },
    );
    if spans.len() == 0 {
        assert(parse_records(bytes).unwrap() =~= expected);
    } else {
        let head = spans.drop_last();
        let last = spans.last();
        let last_id = scopes.index_of(last.scope@) as u32;
        let head_bytes = records_bytes(head, scopes);
        lemma_parse_records(head, scopes);
        lemma_parse_record(last, last_id);
        assert(bytes.len() == spans.len() * RECORD_LEN);
        assert(bytes.len() % (RECORD_LEN as nat) == 0 && bytes.len() / (RECORD_LEN as nat)
            == spans.len()) by (nonlinear_arith)
            requires
                bytes.len() == spans.len() * RECORD_LEN,
                RECORD_LEN == 36,
        ;
        assert(head_bytes.len() % (RECORD_LEN as nat) == 0 && head_bytes.len() / (
        RECORD_LEN as nat) == head.len()) by (nonlinear_arith)
            requires
                head_bytes.len() == head.len() * RECORD_LEN,
                RECORD_LEN == 36,
        ;
        let parsed = parse_records(bytes).unwrap();
        let parsed_head = parse_records(head_bytes).unwrap();
        assert forall|i: int| 0 <= i < spans.len() implies parsed[i] == expected[i] by {
            if i < head.len() {
                assert(bytes.subrange(i * RECORD_LEN, (i + 1) * RECORD_LEN)
                    =~= head_bytes.subrange(i * RECORD_LEN, (i + 1) * RECORD_LEN));
                assert(parsed_head[i] == parse_record(
                    head_bytes.subrange(i * RECORD_LEN, (i + 1) * RECORD_LEN),
                ));
                assert(head[i] == spans[i]);
            } else {
                assert(bytes.subrange(i * RECORD_LEN, (i + 1) * RECORD_LEN) =~= record_bytes(
                    last,
                    last_id,
                ));
            }
        }
        assert(parsed =~= expected);
    }
}

/// Decoding inverts encoding: the payload of a decodable batch carries the
/// spans of the batch, in order, each with its ids, its name, its scope and
/// its duration unchanged.
pub proof fn lemma_decode_payload(spans: Seq<SpanMsg>, names: Seq<Seq<char>>)
    requires
        decodable(spans, names),
        scope_table(spans).len() <= u32::MAX + 1,
        base64_unambiguous(body_bytes(spans)),
    ensures
        decode_payload(payload_text(spans, names)) == Some(resolved_batch(spans, names)),
{
    let scopes = scope_table(spans);
    let body = body_bytes(spans);
    lemma_intern_all_distinct(Seq::empty(), scopes_of(spans));
    assert forall|i: int| 0 <= i < scopes.len() implies delimiter_free(#[trigger] scopes[i]) by {
        lemma_scope_table_entry(spans, i);
    }
    lemma_parse_envelope(names, scopes, base64_text(body));
    assert(base64_source(base64_text(body)) == Some(body));
    lemma_parse_records(spans, scopes);
    let records = parse_records(body).unwrap();
    let expected = resolved_batch(spans, names);
    assert forall|i: int| 0 <= i < records.len() implies (#[trigger] resolve(
        records[i],
        names,
        scopes,
    )) == Some(expected[i]) by {
        lemma_intern_all_holds(Seq::empty(), scopes_of(spans), i);
        assert(scopes_of(spans)[i] == spans[i].scope@);
        let at = scopes.index_of(spans[i].scope@);
        assert(0 <= at < scopes.len() && scopes[at] == spans[i].scope@);
    }
    assert(resolve_all(records, names, scopes).unwrap() =~= expected);
}

/// Every entry of the scope table is the scope of some span.
proof fn lemma_scope_table_entry(spans: Seq<SpanMsg>, position: int)
    requires
        0 <= position < scope_table(spans).len(),
    ensures
        exists|i: int|
            0 <= i < spans.len() && (#[trigger] spans[i]).scope@ == scope_table(spans)[position],
    decreases spans.len(),
{
    if spans.len() > 0 {
        let head = spans.drop_last();
        assert(scopes_of(spans).drop_last() =~= scopes_of(head));
        assert(scopes_of(spans).last() == spans.last().scope@);
        if position < scope_table(head).len() {
            lemma_scope_table_entry(head, position);
            let i = choose|i: int|
                0 <= i < head.len() && (#[trigger] head[i]).scope@ == scope_table(head)[position];
            assert(spans[i].scope@ == scope_table(spans)[position]);
        } else {
            assert(spans[spans.len() - 1].scope@ == scope_table(spans)[position]);
        }
    }
}

} // verus!
