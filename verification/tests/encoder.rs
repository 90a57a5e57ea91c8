use base64::Engine;
use diagnostic_explorer_agent::data_format_v1::{EncoderV1, RECORD_LEN, VERSION_BYTES};
use diagnostic_explorer_agent::types::{SpanDuration, SpanMsg};

fn span(
    span_id: u64,
    parent_id: u64,
    name_id: u32,
    scope: &'static str,
    secs: u64,
    nanos: u32,
) -> SpanMsg {
    SpanMsg { span_id, parent_id, name_id, scope, duration: SpanDuration { secs, nanos } }
}

fn names(list: &[&str]) -> Vec<String> {
    list.iter().map(|name| name.to_string()).collect()
}

struct Decoded {
    names: Vec<String>,
    scopes: Vec<String>,
    body: Vec<u8>,
}

fn table(section: &str) -> Vec<String> {
    let mut entries: Vec<String> = section.split(',').map(|entry| entry.to_string()).collect();
    assert_eq!(entries.pop(), Some(String::new()));
    entries
}

fn decode(payload: &str) -> Decoded {
    assert_eq!(&payload[..4], "1001");
    let mut sections = payload[4..].splitn(3, '\n');
    let names = table(sections.next().unwrap());
    let scopes = table(sections.next().unwrap());
    let body =
        base64::engine::general_purpose::STANDARD.decode(sections.next().unwrap()).unwrap();
    Decoded { names, scopes, body }
}

fn u64_at(bytes: &[u8], offset: usize) -> u64 {
    let mut field = [0u8; 8];
    field.copy_from_slice(&bytes[offset..offset + 8]);
    u64::from_le_bytes(field)
}

fn u32_at(bytes: &[u8], offset: usize) -> u32 {
    let mut field = [0u8; 4];
    field.copy_from_slice(&bytes[offset..offset + 4]);
    u32::from_le_bytes(field)
}

// (span id, parent id, name, scope, seconds, nanoseconds) of each record
fn spans_of(decoded: &Decoded) -> Vec<(u64, u64, String, String, u64, u32)> {
    assert_eq!(decoded.body.len() % 36, 0);
    decoded
        .body
        .chunks(36)
        .map(|record| {
            (
                u64_at(record, 0),
                u64_at(record, 8),
                decoded.names[u32_at(record, 16) as usize].clone(),
                decoded.scopes[u32_at(record, 20) as usize].clone(),
                u64_at(record, 24),
                u32_at(record, 32),
            )
        })
        .collect()
}

#[test]
fn format_constants() {
    assert_eq!(VERSION_BYTES, "1001");
    assert_eq!(RECORD_LEN, 36);
}

#[test]
fn empty_batch_is_version_tag_and_two_empty_sections() {
    let spans: Vec<SpanMsg> = Vec::new();
    let names: Vec<String> = Vec::new();
    assert_eq!(EncoderV1::encode(&spans, &names), "1001\n\n");
}

#[test]
fn empty_batch_still_carries_the_name_table() {
    let spans: Vec<SpanMsg> = Vec::new();
    assert_eq!(EncoderV1::encode(&spans, &names(&["a", "b"])), "1001a,b,\n\n");
}

#[test]
fn write_span_lays_out_36_little_endian_bytes() {
    let span = span(0x0102_0304_0506_0708, 1, 0x0a0b_0c0d, "root", 2, 999_999_999);
    let mut buf = Vec::new();
    EncoderV1::write_span(&span, 7, &mut buf);
    let expected: Vec<u8> = vec![
        8, 7, 6, 5, 4, 3, 2, 1, // span id
        1, 0, 0, 0, 0, 0, 0, 0, // parent id
        0x0d, 0x0c, 0x0b, 0x0a, // name id
        7, 0, 0, 0, // scope id
        2, 0, 0, 0, 0, 0, 0, 0, // seconds
        0xff, 0xc9, 0x9a, 0x3b, // nanoseconds
    ];
    assert_eq!(buf, expected);
}

#[test]
fn write_span_appends_to_what_the_buffer_holds() {
    let mut buf = vec![0xaa, 0xbb];
    EncoderV1::write_span(&span(1, 2, 3, "s", 4, 5), 6, &mut buf);
    assert_eq!(buf.len(), 2 + 36);
    assert_eq!(&buf[..2], &[0xaa, 0xbb]);
    assert_eq!(u64_at(&buf, 2), 1);
    assert_eq!(u64_at(&buf, 10), 2);
    assert_eq!(u32_at(&buf, 18), 3);
    assert_eq!(u32_at(&buf, 22), 6);
    assert_eq!(u64_at(&buf, 26), 4);
    assert_eq!(u32_at(&buf, 34), 5);
}

#[test]
fn one_span_gives_this_exact_payload() {
    let spans = vec![span(1, 0, 0, "root", 1, 500_000_000)];
    let payload = EncoderV1::encode(&spans, &names(&["A"]));
    assert_eq!(payload, "1001A,\nroot,\nAQAAAAAAAAAAAAAAAAAAAAAAAAAAAAAAAQAAAAAAAAAAZc0d");
}

#[test]
fn two_spans_give_this_exact_payload() {
    let spans = vec![span(1, 0, 0, "root", 0, 250), span(2, 1, 0, "child", 3, 4)];
    let payload = EncoderV1::encode(&spans, &names(&["A"]));
    assert_eq!(
        payload,
        "1001A,\nroot,child,\nAQAAAAAAAAAAAAAAAAAAAAAAAAAAAAAAAAAAAAAAAAD6AAAAAgAAAAAAAAABAAAAAAAAAAAAAAABAAAAAwAAAAAAAAAEAAAA"
    );
}

#[test]
fn largest_values_give_this_exact_payload() {
    let spans = vec![span(u64::MAX, u64::MAX - 1, u32::MAX, "s", u64::MAX, 999_999_999)];
    let payload = EncoderV1::encode(&spans, &names(&[]));
    assert_eq!(payload, "1001\ns,\n///////////+//////////////8AAAAA////////////yZo7");
}

#[test]
fn name_table_is_written_in_id_order() {
    let spans: Vec<SpanMsg> = Vec::new();
    let payload = EncoderV1::encode(&spans, &names(&["zeta", "alpha", "", "mid"]));
    assert_eq!(payload, "1001zeta,alpha,,mid,\n\n");
}

#[test]
fn scopes_get_ids_in_first_seen_order() {
    let spans = vec![
        span(1, 0, 0, "b", 0, 0),
        span(2, 0, 0, "a", 0, 0),
        span(3, 0, 0, "b", 0, 0),
        span(4, 0, 0, "c", 0, 0),
        span(5, 0, 0, "a", 0, 0),
    ];
    let decoded = decode(&EncoderV1::encode(&spans, &names(&["n"])));
    assert_eq!(decoded.scopes, names(&["b", "a", "c"]));
    let ids: Vec<u32> = decoded.body.chunks(36).map(|record| u32_at(record, 20)).collect();
    assert_eq!(ids, vec![0, 1, 0, 2, 1]);
}

#[test]
fn scope_table_holds_only_the_scopes_of_the_batch() {
    let first = vec![span(1, 0, 0, "x", 0, 0), span(2, 0, 0, "y", 0, 0)];
    let second = vec![span(3, 0, 0, "y", 0, 0)];
    let table = names(&["n"]);
    assert_eq!(decode(&EncoderV1::encode(&first, &table)).scopes, names(&["x", "y"]));
    let decoded = decode(&EncoderV1::encode(&second, &table));
    assert_eq!(decoded.scopes, names(&["y"]));
    assert_eq!(u32_at(&decoded.body, 20), 0);
}

#[test]
fn same_name_in_two_scopes_shares_the_name_id() {
    let spans = vec![span(1, 0, 0, "physics", 1, 0), span(2, 0, 0, "audio", 2, 0)];
    let decoded = decode(&EncoderV1::encode(&spans, &names(&["step"])));
    let records: Vec<&[u8]> = decoded.body.chunks(36).collect();
    assert_eq!(records.len(), 2);
    assert_eq!(u32_at(records[0], 16), u32_at(records[1], 16));
    assert_ne!(u32_at(records[0], 20), u32_at(records[1], 20));
    assert_eq!(decoded.names, names(&["step"]));
    assert_eq!(decoded.scopes, names(&["physics", "audio"]));
}

#[test]
fn decoding_recovers_the_batch() {
    let table = names(&["load", "update", "draw"]);
    let spans = vec![
        span(11, 0, 1, "app", 0, 0),
        span(12, 11, 2, "render", 5, 999_999_999),
        span(u64::MAX, 12, 0, "app", u64::MAX, 1),
        span(13, u64::MAX, 2, "io", 1 << 40, 123_456_789),
        span(11, 0, 1, "render", 86_400, 42),
    ];
    let decoded = decode(&EncoderV1::encode(&spans, &table));
    assert_eq!(decoded.names, table);
    let expected: Vec<(u64, u64, String, String, u64, u32)> = spans
        .iter()
        .map(|s| {
            (
                s.span_id,
                s.parent_id,
                table[s.name_id as usize].clone(),
                s.scope.to_string(),
                s.duration.secs,
                s.duration.nanos,
            )
        })
        .collect();
    assert_eq!(spans_of(&decoded), expected);
}

#[test]
fn body_has_36_bytes_for_each_span() {
    let spans: Vec<SpanMsg> = (0..100).map(|i| span(i, 0, 0, "s", i, 0)).collect();
    let decoded = decode(&EncoderV1::encode(&spans, &names(&["n"])));
    assert_eq!(decoded.body.len(), 3600);
    for (i, record) in decoded.body.chunks(36).enumerate() {
        assert_eq!(u64_at(record, 0), i as u64);
        assert_eq!(u64_at(record, 24), i as u64);
    }
}

#[test]
fn encoding_leaves_its_arguments_as_they_were() {
    let table = names(&["a"]);
    let spans = vec![span(1, 0, 0, "root", 1, 2)];
    let first = EncoderV1::encode(&spans, &table);
    let second = EncoderV1::encode(&spans, &table);
    assert_eq!(first, second);
    assert_eq!(spans, vec![span(1, 0, 0, "root", 1, 2)]);
    assert_eq!(table, names(&["a"]));
}

#[test]
fn comma_in_a_name_breaks_the_framing() {
    let spans: Vec<SpanMsg> = Vec::new();
    let payload = EncoderV1::encode(&spans, &names(&["a,b"]));
    assert_eq!(payload, "1001a,b,\n\n");
    assert_eq!(decode(&payload).names, names(&["a", "b"]));
}
