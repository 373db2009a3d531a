use std::collections::VecDeque;

use bytes::Bytes;

use lambda_otel_relay::merge::{decode_request, encode_request, merge_traces, ResourceEntry};

/// One length-delimited protobuf field; payloads stay under 128 bytes so a
/// single varint byte carries each length.
fn enc_field(field: u8, payload: &[u8]) -> Vec<u8> {
    assert!(payload.len() < 128);
    let mut out = vec![field << 3 | 2, payload.len() as u8];
    out.extend_from_slice(payload);
    out
}

/// An encoded key-value attribute with a string value.
fn kv(key: &str, val: &str) -> Vec<u8> {
    let any_value = enc_field(1, val.as_bytes());
    let mut out = enc_field(1, key.as_bytes());
    out.extend_from_slice(&enc_field(2, &any_value));
    out
}

/// An encoded resource message with the given attributes.
fn resource(attrs: Vec<Vec<u8>>) -> Vec<u8> {
    let mut out = Vec::new();
    for a in attrs {
        out.extend_from_slice(&enc_field(1, &a));
    }
    out
}

/// An encoded resource-scoped entry: optional resource, empty scope entries,
/// schema URL.
fn resource_spans(res: Option<Vec<u8>>, num_scopes: usize, schema_url: &str) -> Vec<u8> {
    let mut out = Vec::new();
    if let Some(r) = res {
        out.extend_from_slice(&enc_field(1, &r));
    }
    for _ in 0..num_scopes {
        out.extend_from_slice(&enc_field(2, &[]));
    }
    if !schema_url.is_empty() {
        out.extend_from_slice(&enc_field(3, schema_url.as_bytes()));
    }
    out
}

/// An encoded export request holding the given entries.
fn trace_request(entries: Vec<Vec<u8>>) -> Bytes {
    let mut out = Vec::new();
    for e in entries {
        out.extend_from_slice(&enc_field(1, &e));
    }
    Bytes::from(out)
}

fn merged_of(payloads: Vec<Bytes>) -> Vec<ResourceEntry> {
    let queue: VecDeque<Bytes> = payloads.into();
    merge_traces(&queue)
}

#[test]
fn same_resource_merges_scope_entries() {
    let r = resource(vec![kv("service.name", "my-svc")]);
    let payload1 = trace_request(vec![resource_spans(Some(r.clone()), 1, "")]);
    let payload2 = trace_request(vec![resource_spans(Some(r), 2, "")]);

    let merged = merged_of(vec![payload1, payload2]);
    assert_eq!(merged.len(), 1, "should merge into 1 resource");
    assert_eq!(merged[0].scopes.len(), 3, "should have 1+2=3 scope spans");
}

#[test]
fn different_resources_stay_separate() {
    let r1 = resource(vec![kv("service.name", "svc-a")]);
    let r2 = resource(vec![kv("service.name", "svc-b")]);
    let payload = trace_request(vec![
        resource_spans(Some(r1), 1, ""),
        resource_spans(Some(r2), 1, ""),
    ]);

    let merged = merged_of(vec![payload]);
    assert_eq!(merged.len(), 2);
}

#[test]
fn attribute_order_does_not_affect_identity() {
    let r1 = resource(vec![kv("a", "1"), kv("b", "2")]);
    let r2 = resource(vec![kv("b", "2"), kv("a", "1")]);
    let payload1 = trace_request(vec![resource_spans(Some(r1), 1, "")]);
    let payload2 = trace_request(vec![resource_spans(Some(r2), 1, "")]);

    let merged = merged_of(vec![payload1, payload2]);
    assert_eq!(merged.len(), 1, "[a,b] and [b,a] should merge");
    assert_eq!(merged[0].scopes.len(), 2);
}

#[test]
fn none_resources_merge_together() {
    let payload1 = trace_request(vec![resource_spans(None, 1, "")]);
    let payload2 = trace_request(vec![resource_spans(None, 2, "")]);

    let merged = merged_of(vec![payload1, payload2]);
    assert_eq!(merged.len(), 1);
    assert_eq!(merged[0].scopes.len(), 3);
}

#[test]
fn malformed_payload_skipped() {
    let valid = trace_request(vec![resource_spans(None, 1, "")]);

    let merged = merged_of(vec![Bytes::from(vec![0xFF, 0xFF, 0xFF]), valid]);
    assert_eq!(merged.len(), 1);
}

#[test]
fn empty_attributes_and_none_resource_merge_together() {
    let empty_attrs = resource(vec![]);
    let payload1 = trace_request(vec![resource_spans(Some(empty_attrs), 1, "")]);
    let payload2 = trace_request(vec![resource_spans(None, 2, "")]);

    let merged = merged_of(vec![payload1, payload2]);
    assert_eq!(
        merged.len(),
        1,
        "empty-attributes and None resource should produce the same identity"
    );
    assert_eq!(merged[0].scopes.len(), 3);
}

#[test]
fn empty_payloads_produce_empty_request() {
    let merged = merged_of(vec![]);
    assert!(merged.is_empty());
}

#[test]
fn different_schema_urls_stay_separate() {
    let r = resource(vec![kv("service.name", "my-svc")]);
    let rs1 = resource_spans(Some(r.clone()), 1, "https://example.com/schema/v1");
    let rs2 = resource_spans(Some(r), 1, "https://example.com/schema/v2");

    let payload = trace_request(vec![rs1, rs2]);

    let merged = merged_of(vec![payload]);
    assert_eq!(
        merged.len(),
        2,
        "same attributes but different schema_url should stay separate"
    );
}

#[test]
fn merged_scopes_keep_arrival_order() {
    let r = resource(vec![kv("service.name", "my-svc")]);
    // distinguishable scope payloads
    let mut e1 = enc_field(1, &r);
    e1.extend_from_slice(&enc_field(2, b"s1"));
    let mut e2 = enc_field(1, &r);
    e2.extend_from_slice(&enc_field(2, b"s2"));
    e2.extend_from_slice(&enc_field(2, b"s3"));

    let merged = merged_of(vec![trace_request(vec![e1]), trace_request(vec![e2])]);
    assert_eq!(merged.len(), 1);
    assert_eq!(merged[0].scopes, vec![b"s1".to_vec(), b"s2".to_vec(), b"s3".to_vec()]);
}

#[test]
fn decode_encode_round_trips() {
    let r = resource(vec![kv("service.name", "my-svc"), kv("env", "prod")]);
    let req = trace_request(vec![
        resource_spans(Some(r), 2, "https://example.com/schema/v1"),
        resource_spans(None, 1, ""),
    ]);

    let first = decode_request(&req.to_vec()).unwrap();
    let reencoded = encode_request(&first);
    let second = decode_request(&reencoded).unwrap();

    assert_eq!(first.len(), second.len());
    for (a, b) in first.iter().zip(second.iter()) {
        assert_eq!(a.resource, b.resource);
        assert_eq!(a.scopes, b.scopes);
        assert_eq!(a.schema_url, b.schema_url);
        assert_eq!(a.attributes.len(), b.attributes.len());
        for (x, y) in a.attributes.iter().zip(b.attributes.iter()) {
            assert_eq!(x.key, y.key);
            assert_eq!(x.encoded, y.encoded);
        }
    }
}
