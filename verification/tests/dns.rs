use cage::dns_cache::DnsCache;
use cage::dns_proxy::{EnclaveDns, ProxyError, dotted_name, servfail_reply};
use cage::dns_wire::{DnsMessage, DnsName, DnsQuestion, DnsRecord, decode_message, encode_message};

fn name(labels: &[&str]) -> DnsName {
    DnsName { labels: labels.iter().map(|l| l.as_bytes().to_vec()).collect() }
}

fn a_record(labels: &[&str], addr: [u8; 4], ttl: u32) -> DnsRecord {
    DnsRecord { name: name(labels), rtype: 1, rclass: 1, ttl, rdata: addr.to_vec() }
}

fn upstream_response(id: u16, labels: &[&str], answers: Vec<DnsRecord>) -> Vec<u8> {
    let msg = DnsMessage {
        id,
        flags: 0x8180,
        questions: vec![DnsQuestion { name: name(labels), qtype: 1, qclass: 1 }],
        answers,
        authorities: vec![],
        additionals: vec![],
    };
    encode_message(&msg)
}

#[test]
fn test_dns_substitution() {
    let api = ["api", "example", "com"];
    let upstream = upstream_response(0x5ad7, &api, vec![a_record(&api, [93, 184, 216, 34], 300)]);
    let mut proxy = EnclaveDns::new();
    let reply = proxy.handle_response(&upstream, 1_000).unwrap();
    let msg = decode_message(reply.as_slice()).unwrap();
    assert_eq!(msg.id, 0x5ad7);
    assert_eq!(msg.flags, 0x8180);
    assert_eq!(msg.questions.len(), 1);
    assert_eq!(msg.answers.len(), 1);
    let ans = &msg.answers[0];
    assert_eq!(ans.name.labels, vec![b"api".to_vec(), b"example".to_vec(), b"com".to_vec()]);
    assert_eq!(ans.rtype, 1);
    assert_eq!(ans.rclass, 1);
    assert_eq!(ans.ttl, u32::MAX);
    assert_eq!(ans.rdata, vec![127, 0, 0, 1]);
    assert_eq!(msg.authorities.len(), 0);
    assert_eq!(msg.additionals.len(), 0);
}

#[test]
fn test_dns_passthrough() {
    let upstream = upstream_response(7, &["missing", "example", "com"], vec![]);
    let mut proxy = EnclaveDns::new();
    let reply = proxy.handle_response(&upstream, 1_000).unwrap();
    assert_eq!(reply, upstream);
}

#[test]
fn test_cache_population() {
    let api = ["api", "example", "com"];
    let upstream = upstream_response(1, &api, vec![a_record(&api, [93, 184, 216, 34], 300)]);
    let mut proxy = EnclaveDns::new();
    let t0: u64 = 10_000;
    proxy.handle_response(&upstream, t0).unwrap();

    // a second independent lookup within thirty seconds sees the true records
    let key = dotted_name(&name(&api));
    assert_eq!(String::from_utf8(key.clone()).unwrap(), "api.example.com");
    let hit = proxy.cached(&key, t0 + 29_999).expect("entry should be live");
    assert_eq!(hit.len(), 1);
    assert_eq!(hit[0].rdata, vec![93, 184, 216, 34]);
    assert_ne!(hit[0].rdata, vec![127, 0, 0, 1]);

    // at thirty seconds the entry is gone
    assert!(proxy.cached(&key, t0 + 30_000).is_none());
}

#[test]
fn test_zero_answer_responses_are_not_cached() {
    let miss = ["missing", "example", "com"];
    let upstream = upstream_response(2, &miss, vec![]);
    let mut proxy = EnclaveDns::new();
    proxy.handle_response(&upstream, 500).unwrap();
    let key = dotted_name(&name(&miss));
    assert!(proxy.cached(&key, 501).is_none());
    assert_eq!(proxy.cache.len(), 0);
}

#[test]
fn test_cache_capacity_bound() {
    let mut cache = DnsCache::new();
    for i in 0..15u8 {
        let key = format!("host{}.example.com", i).into_bytes();
        let recs = vec![a_record(&["h"], [10, 0, 0, i], 60)];
        cache.insert(key, recs, 1_000);
    }
    assert_eq!(cache.len(), 10);
    // the oldest entries were evicted, the newest are present
    assert!(cache.get(&b"host0.example.com".to_vec(), 1_001).is_none());
    assert!(cache.get(&b"host14.example.com".to_vec(), 1_001).is_some());
}

#[test]
fn test_cache_replaces_same_key() {
    let mut cache = DnsCache::new();
    cache.insert(b"a".to_vec(), vec![a_record(&["a"], [1, 1, 1, 1], 60)], 1_000);
    cache.insert(b"a".to_vec(), vec![a_record(&["a"], [2, 2, 2, 2], 60)], 2_000);
    assert_eq!(cache.len(), 1);
    let hit = cache.get(&b"a".to_vec(), 2_001).unwrap();
    assert_eq!(hit[0].rdata, vec![2, 2, 2, 2]);
}

#[test]
fn test_malformed_response_is_per_query_error() {
    let mut proxy = EnclaveDns::new();
    let r = proxy.handle_response(&vec![0, 1, 2], 1_000);
    assert_eq!(r.unwrap_err(), ProxyError::MalformedResponse);
}

#[test]
fn test_response_without_question() {
    let msg = DnsMessage {
        id: 9,
        flags: 0x8180,
        questions: vec![],
        answers: vec![],
        authorities: vec![],
        additionals: vec![],
    };
    let bytes = encode_message(&msg);
    let mut proxy = EnclaveDns::new();
    let r = proxy.handle_response(&bytes, 1_000);
    assert_eq!(r.unwrap_err(), ProxyError::MissingQuestion);
}

#[test]
fn test_servfail_reply_shape() {
    let query = vec![0xab, 0xcd, 1, 0, 0, 1, 0, 0, 0, 0, 0, 0];
    let reply = servfail_reply(&query).unwrap();
    assert_eq!(reply, vec![0xab, 0xcd, 0x81, 0x82, 0, 0, 0, 0, 0, 0, 0, 0]);
    assert!(servfail_reply(&vec![7]).is_none());
}

#[test]
fn test_decode_handles_name_compression() {
    // header: id 1, flags 0x8180, one question, one answer
    let mut bytes: Vec<u8> = vec![0, 1, 0x81, 0x80, 0, 1, 0, 1, 0, 0, 0, 0];
    // question: api.example.com A IN
    bytes.extend_from_slice(b"\x03api\x07example\x03com\x00");
    bytes.extend_from_slice(&[0, 1, 0, 1]);
    // answer: name is a pointer to offset 12, A IN ttl 300, 4-byte address
    bytes.extend_from_slice(&[0xc0, 12]);
    bytes.extend_from_slice(&[0, 1, 0, 1, 0, 0, 1, 44, 0, 4, 93, 184, 216, 34]);
    let msg = decode_message(bytes.as_slice()).unwrap();
    assert_eq!(msg.questions.len(), 1);
    assert_eq!(msg.answers.len(), 1);
    assert_eq!(msg.answers[0].name.labels, msg.questions[0].name.labels);
    assert_eq!(msg.answers[0].ttl, 300);
    assert_eq!(msg.answers[0].rdata, vec![93, 184, 216, 34]);

    // and the whole proxy path works on compressed upstream bytes
    let mut proxy = EnclaveDns::new();
    let reply = proxy.handle_response(&bytes, 42).unwrap();
    let sub = decode_message(reply.as_slice()).unwrap();
    assert_eq!(sub.answers[0].rdata, vec![127, 0, 0, 1]);
    let key = dotted_name(&DnsName {
        labels: vec![b"api".to_vec(), b"example".to_vec(), b"com".to_vec()],
    });
    assert!(proxy.cached(&key, 100).is_some());
}

#[test]
fn test_forward_pointer_is_malformed() {
    // a name that is a pointer to itself never resolves
    let mut bytes: Vec<u8> = vec![0, 1, 0x81, 0x80, 0, 1, 0, 0, 0, 0, 0, 0];
    bytes.extend_from_slice(&[0xc0, 12]);
    bytes.extend_from_slice(&[0, 1, 0, 1]);
    assert!(decode_message(bytes.as_slice()).is_none());
}

#[test]
fn test_encode_decode_round_trip() {
    let api = ["api", "example", "com"];
    let bytes = upstream_response(77, &api, vec![a_record(&api, [1, 2, 3, 4], 17)]);
    let msg = decode_message(bytes.as_slice()).unwrap();
    assert_eq!(msg.id, 77);
    assert_eq!(encode_message(&msg), bytes);
}
