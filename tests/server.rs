use ed25519_dalek::{Signature, Verifier, VerifyingKey};
use roughenough::{
    is_valid_config, Error, KmsProtection, OnlineKey, Server, ServerConfig, Step, Tag,
    MIN_REQUEST_LENGTH,
};
use sha2::{Digest, Sha512};

const CERT_CONTEXT: &[u8] = b"RoughTime v1 delegation signature--\x00";
const RESP_CONTEXT: &[u8] = b"RoughTime v1 response signature\x00";

fn config(batch_size: u8) -> ServerConfig {
    ServerConfig {
        interface: "127.0.0.1".to_string(),
        port: 2002,
        seed: vec![0u8; 32],
        batch_size,
        status_interval_secs: 600,
        kms_protection: KmsProtection::Plaintext,
        health_check_port: None,
    }
}

fn server(batch_size: u8) -> Server {
    Server::with_online_key(config(batch_size), &[0u8; 32], OnlineKey::from_seed(&[7u8; 32]), 1_000_000)
}

fn request(nonce: &[u8; 64], len: usize) -> Vec<u8> {
    let mut r = vec![0u8; len.max(80)];
    r[0..4].copy_from_slice(&2u32.to_le_bytes());
    r[4..8].copy_from_slice(&64u32.to_le_bytes());
    r[8..12].copy_from_slice(b"NONC");
    r[12..16].copy_from_slice(b"PAD\xff");
    r[16..80].copy_from_slice(nonce);
    r.truncate(len);
    r
}

fn fields(b: &[u8]) -> Vec<(Vec<u8>, Vec<u8>)> {
    let n = u32::from_le_bytes(b[0..4].try_into().unwrap()) as usize;
    let area = 8 * n;
    let mut out = Vec::new();
    let mut start = 0usize;
    for i in 0..n {
        let end = if i + 1 < n {
            u32::from_le_bytes(b[4 + 4 * i..8 + 4 * i].try_into().unwrap()) as usize
        } else {
            b.len() - area
        };
        let tag = b[4 * n + 4 * i..4 * n + 4 * i + 4].to_vec();
        out.push((tag, b[area + start..area + end].to_vec()));
        start = end;
    }
    out
}

fn field(b: &[u8], tag: &[u8]) -> Vec<u8> {
    fields(b).into_iter().find(|(t, _)| t == tag).map(|(_, v)| v).unwrap()
}

fn hash32(data: &[u8]) -> Vec<u8> {
    Sha512::digest(data)[..32].to_vec()
}

fn leaf(nonce: &[u8]) -> Vec<u8> {
    let mut d = vec![0u8];
    d.extend_from_slice(nonce);
    hash32(&d)
}

fn node(l: &[u8], r: &[u8]) -> Vec<u8> {
    let mut d = vec![1u8];
    d.extend_from_slice(l);
    d.extend_from_slice(r);
    hash32(&d)
}

fn fold(mut h: Vec<u8>, mut i: usize, mut n: usize, path: &[u8]) -> Vec<u8> {
    let mut p = 0;
    while n > 1 {
        if i % 2 == 1 || i + 1 < n {
            let sib = &path[p..p + 32];
            p += 32;
            h = if i % 2 == 0 { node(&h, sib) } else { node(sib, &h) };
        }
        i /= 2;
        n = (n + 1) / 2;
    }
    assert_eq!(p, path.len());
    h
}

fn verify(pubk: &[u8], msg: &[u8], sig: &[u8]) -> bool {
    let k = VerifyingKey::from_bytes(pubk.try_into().unwrap()).unwrap();
    let s = Signature::from_bytes(sig.try_into().unwrap());
    k.verify(msg, &s).is_ok()
}

fn run_batch(s: &mut Server, nonces: &[[u8; 64]], midp: u64) -> Vec<Vec<u8>> {
    s.begin_drain();
    for n in nonces {
        assert_eq!(s.next_step(true), Step::Receive);
        s.handle_datagram(&request(n, 1024)).unwrap();
    }
    if s.next_step(true) == Step::Receive {
        s.handle_would_block();
    }
    assert_eq!(s.next_step(true), Step::Respond);
    s.respond(midp)
}

fn signed(context: &[u8], body: &[u8]) -> Vec<u8> {
    let mut m = context.to_vec();
    m.extend_from_slice(body);
    m
}

#[test]
fn request_of_minimum_length_is_accepted() {
    let s = server(64);
    let r = request(&[0x41; 64], MIN_REQUEST_LENGTH as usize);
    assert_eq!(s.nonce_from_request(&r, r.len()).unwrap(), vec![0x41u8; 64]);
}

#[test]
fn request_one_byte_short_is_rejected() {
    let s = server(64);
    let r = request(&[0x41; 64], MIN_REQUEST_LENGTH as usize - 1);
    assert_eq!(s.nonce_from_request(&r, r.len()), Err(Error::RequestTooShort));
}

#[test]
fn request_with_wrong_tags_is_invalid() {
    let s = server(64);
    let mut r = request(&[0x41; 64], 1024);
    r[12..16].copy_from_slice(b"NONC");
    assert_eq!(s.nonce_from_request(&r, r.len()), Err(Error::InvalidRequest));
    let mut r = request(&[0x41; 64], 1024);
    r[0] = 3;
    assert_eq!(s.nonce_from_request(&r, r.len()), Err(Error::InvalidRequest));
}

#[test]
fn nonce_is_read_from_the_given_prefix() {
    let s = server(64);
    let mut buf = request(&[0x41; 64], 1024);
    buf.extend_from_slice(&[0u8; 100]);
    assert!(s.nonce_from_request(&buf, 1024).is_ok());
    assert_eq!(s.nonce_from_request(&buf, 1000), Err(Error::RequestTooShort));
}

#[test]
fn single_valid_request() {
    let mut s = Server::with_online_key(config(64), &[0u8; 32], OnlineKey::from_seed(&[9u8; 32]), 5);
    let out = run_batch(&mut s, &[[0x41; 64]], 123_456);
    assert_eq!(out.len(), 1);
    let r = &out[0];
    assert_eq!(field(r, b"INDX"), vec![0, 0, 0, 0]);
    assert!(field(r, b"PATH").is_empty());
    let srep = field(r, b"SREP");
    let cert = field(r, b"CERT");
    let dele = field(&cert, b"DELE");
    let pubk = field(&dele, b"PUBK");
    assert!(verify(&pubk, &signed(RESP_CONTEXT, &srep), &field(r, b"SIG\x00")));
    assert_eq!(field(&srep, b"ROOT"), leaf(&[0x41; 64]));
    assert_eq!(field(&srep, b"MIDP"), 123_456u64.to_le_bytes().to_vec());
    assert_eq!(field(&srep, b"RADI"), 1_000_000u32.to_le_bytes().to_vec());
    assert_eq!(s.response_counter(), 1);
    assert_eq!(s.num_bad_requests(), 0);
}

#[test]
fn response_fields_in_tag_order() {
    let mut s = server(64);
    let out = run_batch(&mut s, &[[1; 64]], 1);
    let tags: Vec<Vec<u8>> = fields(&out[0]).into_iter().map(|(t, _)| t).collect();
    assert_eq!(tags, vec![b"SIG\x00".to_vec(), b"PATH".to_vec(), b"SREP".to_vec(), b"CERT".to_vec(), b"INDX".to_vec()]);
}

#[test]
fn certificate_verifies_against_long_term_key() {
    let s = server(64);
    let cert = s.cert_bytes().to_vec();
    let dele = field(&cert, b"DELE");
    let lt = ed25519_dalek::SigningKey::from_bytes(&[0u8; 32]).verifying_key().to_bytes();
    assert!(verify(&lt, &signed(CERT_CONTEXT, &dele), &field(&cert, b"SIG\x00")));
    assert_eq!(s.get_public_key(), hex_of(&lt));
    let online = ed25519_dalek::SigningKey::from_bytes(&[7u8; 32]).verifying_key().to_bytes();
    assert_eq!(field(&dele, b"PUBK"), online.to_vec());
    assert_eq!(field(&dele, b"MINT"), 1_000_000u64.to_le_bytes().to_vec());
    assert_eq!(field(&dele, b"MAXT"), (1_000_000u64 + 31_536_000_000_000).to_le_bytes().to_vec());
}

fn hex_of(b: &[u8]) -> String {
    b.iter().map(|x| format!("{:02x}", x)).collect()
}

#[test]
fn two_requests_share_one_batch() {
    let mut s = server(64);
    let out = run_batch(&mut s, &[[0xaa; 64], [0xbb; 64]], 77);
    assert_eq!(out.len(), 2);
    for tag in [&b"SREP"[..], b"SIG\x00", b"CERT"] {
        assert_eq!(field(&out[0], tag), field(&out[1], tag));
    }
    assert_eq!(field(&out[0], b"INDX"), vec![0, 0, 0, 0]);
    assert_eq!(field(&out[1], b"INDX"), vec![1, 0, 0, 0]);
    assert_eq!(field(&out[0], b"PATH"), leaf(&[0xbb; 64]));
    assert_eq!(field(&out[1], b"PATH"), leaf(&[0xaa; 64]));
    assert_eq!(s.response_counter(), 2);
}

#[test]
fn malformed_request_gets_no_response() {
    let mut s = server(64);
    s.begin_drain();
    let mut bad = request(&[1; 64], 1024);
    bad[0] = 1;
    assert_eq!(s.handle_datagram(&bad), Err(Error::InvalidRequest));
    s.handle_would_block();
    assert_eq!(s.next_step(true), Step::Idle);
    assert_eq!(s.num_bad_requests(), 1);
    assert_eq!(s.response_counter(), 0);
    let out = run_batch(&mut s, &[[2; 64]], 9);
    assert_eq!(out.len(), 1);
    assert_eq!(s.response_counter(), 1);
}

#[test]
fn batch_saturation_splits_into_two_batches() {
    let mut s = server(64);
    let nonces: Vec<[u8; 64]> = (0..65u8).map(|i| [i; 64]).collect();
    s.begin_drain();
    for n in &nonces[..64] {
        assert_eq!(s.next_step(true), Step::Receive);
        s.handle_datagram(&request(n, 1024)).unwrap();
    }
    assert_eq!(s.next_step(true), Step::Respond);
    let first = s.respond(100);
    assert_eq!(first.len(), 64);
    assert_eq!(s.next_step(true), Step::Receive);
    assert_eq!(s.handle_datagram(&request(&nonces[64], 1024)), Ok(0));
    s.handle_would_block();
    let second = s.respond(200);
    assert_eq!(second.len(), 1);
    let srep1 = field(&first[0], b"SREP");
    for r in &first {
        assert_eq!(field(r, b"SREP"), srep1);
    }
    let srep2 = field(&second[0], b"SREP");
    assert_ne!(field(&srep1, b"MIDP"), field(&srep2, b"MIDP"));
    assert_ne!(field(&first[0], b"SIG\x00"), field(&second[0], b"SIG\x00"));
    assert_eq!(s.response_counter(), 65);
    assert_eq!(s.next_step(true), Step::Idle);
}

#[test]
fn full_batch_has_one_signature_and_distinct_indexes() {
    let mut s = server(64);
    let nonces: Vec<[u8; 64]> = (0..64u8).map(|i| [i; 64]).collect();
    let out = run_batch(&mut s, &nonces, 3);
    assert_eq!(out.len(), 64);
    let sig = field(&out[0], b"SIG\x00");
    let mut seen = std::collections::HashSet::new();
    for r in &out {
        assert_eq!(field(r, b"SIG\x00"), sig);
        assert!(seen.insert(field(r, b"INDX")));
        assert_eq!(field(r, b"PATH").len(), 6 * 32);
    }
}

#[test]
fn every_path_folds_to_the_root() {
    for n in 1..=64usize {
        let mut s = server(64);
        let nonces: Vec<[u8; 64]> = (0..n).map(|i| [(i * 3 + n) as u8; 64]).collect();
        let out = run_batch(&mut s, &nonces, 1);
        for (i, r) in out.iter().enumerate() {
            let root = field(&field(r, b"SREP"), b"ROOT");
            assert_eq!(field(r, b"INDX"), (i as u32).to_le_bytes().to_vec());
            assert_eq!(fold(leaf(&nonces[i]), i, n, &field(r, b"PATH")), root);
        }
    }
}

#[test]
fn path_length_depends_on_position_only_when_not_a_power_of_two() {
    let mut s = server(64);
    let out = run_batch(&mut s, &[[1; 64], [2; 64], [3; 64], [4; 64]], 1);
    for r in &out {
        assert_eq!(field(r, b"PATH").len(), 64);
        assert_eq!(r.len(), out[0].len());
    }
    let out = run_batch(&mut s, &[[1; 64], [2; 64], [3; 64]], 1);
    assert_eq!(field(&out[0], b"PATH").len(), 64);
    assert_eq!(field(&out[2], b"PATH").len(), 32);
}

#[test]
fn counters_track_valid_and_invalid_datagrams() {
    let mut s = server(4);
    s.begin_drain();
    let mut bad = request(&[0; 64], 1024);
    bad[8] = b'X';
    let stream = vec![request(&[1; 64], 1024), bad.clone(), request(&[2; 64], 1024), vec![0u8; 10]];
    for d in &stream {
        assert_eq!(s.next_step(true), Step::Receive);
        let _ = s.handle_datagram(d);
    }
    assert_eq!(s.next_step(true), Step::Respond);
    let out = s.respond(5);
    assert_eq!(out.len(), 2);
    assert_eq!(s.next_step(true), Step::Receive);
    let _ = s.handle_datagram(&bad);
    let _ = s.handle_datagram(&request(&[3; 64], 1024));
    s.handle_would_block();
    s.respond(6);
    assert_eq!(s.response_counter(), 3);
    assert_eq!(s.num_bad_requests(), 3);
}

#[test]
fn shutdown_mid_drain_completes_batch_and_stops_reading() {
    let mut s = server(64);
    s.begin_drain();
    s.handle_datagram(&request(&[5; 64], 1024)).unwrap();
    assert_eq!(s.next_step(false), Step::Respond);
    let out = s.respond(1);
    assert_eq!(out.len(), 1);
    assert_eq!(s.next_step(false), Step::Idle);
    assert_eq!(s.next_step(true), Step::Receive);
}

#[test]
fn recv_error_ends_pass_but_not_drain() {
    let mut s = server(64);
    s.begin_drain();
    s.handle_datagram(&request(&[5; 64], 1024)).unwrap();
    s.handle_recv_error();
    assert_eq!(s.next_step(true), Step::Respond);
    s.respond(1);
    assert_eq!(s.next_step(true), Step::Receive);
}

#[test]
fn idle_when_pass_ends_with_empty_batch() {
    let mut s = server(1);
    s.begin_drain();
    assert_eq!(s.handle_datagram(&[0u8; 4]), Err(Error::RequestTooShort));
    assert_eq!(s.next_step(true), Step::Idle);
}

#[test]
fn config_validation() {
    assert!(is_valid_config(&config(64)));
    assert!(is_valid_config(&config(1)));
    assert!(!is_valid_config(&config(0)));
    assert!(!is_valid_config(&config(65)));
    let mut c = config(64);
    c.port = 0;
    assert!(!is_valid_config(&c));
    let mut c = config(64);
    c.interface = String::new();
    assert!(!is_valid_config(&c));
    let mut c = config(64);
    c.seed = vec![0u8; 31];
    assert!(!is_valid_config(&c));
    let mut c = config(64);
    c.kms_protection = KmsProtection::KmsKeyId("k".to_string());
    assert!(!is_valid_config(&c));
    c.seed = vec![1u8; 80];
    assert!(is_valid_config(&c));
}

#[test]
fn timestamp_conversion() {
    assert_eq!(roughenough::timestamp_micros(2, 500_000_999), 2_500_000);
    assert_eq!(roughenough::timestamp_micros(-1, 0), 0);
    assert_eq!(roughenough::timestamp_micros(i64::MAX, 0), u64::MAX);
}

#[test]
fn tag_wire_values() {
    assert_eq!(Tag::NONC.wire_value(), b"NONC".to_vec());
    assert_eq!(Tag::PAD.wire_value(), b"PAD\xff".to_vec());
    assert_eq!(Tag::SIG.wire_value(), b"SIG\x00".to_vec());
    assert_eq!(Tag::INDX.wire_value(), b"INDX".to_vec());
}

#[test]
fn fresh_online_keys_differ_and_sign_responses() {
    let mut a = Server::new(config(64), &[0u8; 32], 10);
    let b = Server::new(config(64), &[0u8; 32], 10);
    assert_ne!(a.get_online_key().public_key(), b.get_online_key().public_key());
    let pubk = field(&field(a.cert_bytes(), b"DELE"), b"PUBK");
    assert_eq!(pubk, a.get_online_key().public_key().to_vec());
    let out = run_batch(&mut a, &[[3; 64]], 11);
    assert!(verify(&pubk, &signed(RESP_CONTEXT, &field(&out[0], b"SREP")), &field(&out[0], b"SIG\x00")));
    assert_eq!(a.get_config().batch_size, 64);
}

#[test]
fn request_with_wrong_nonce_length_is_invalid() {
    let s = server(64);
    let mut r = request(&[0x41; 64], 1024);
    r[4] = 32;
    assert_eq!(s.nonce_from_request(&r, r.len()), Err(Error::InvalidRequest));
}

#[test]
fn config_needs_a_socket_address() {
    let mut c = config(64);
    c.interface = "localhost".to_string();
    c.port = 8686;
    assert!(!is_valid_config(&c));
    c.interface = "0.0.0.0".to_string();
    assert!(is_valid_config(&c));
    c.interface = "[::1]".to_string();
    assert!(is_valid_config(&c));
}

#[test]
fn response_from_srep_with_extra_fields() {
    let s = server(64);
    let mut srep = roughenough::RtMessage::new(3);
    srep.add_field(Tag::SIG, &[1; 64]).unwrap();
    srep.add_field(Tag::PATH, &[9; 4]).unwrap();
    srep.add_field(Tag::SREP, &[2; 68]).unwrap();
    let resp = s.make_response(&srep, s.cert_bytes(), &[3; 32], 5).encode();
    assert_eq!(field(&resp, b"SIG\x00"), vec![1; 64]);
    assert_eq!(field(&resp, b"SREP"), vec![2; 68]);
    assert_eq!(field(&resp, b"PATH"), vec![3; 32]);
    assert_eq!(field(&resp, b"INDX"), vec![5, 0, 0, 0]);
    assert_eq!(resp.len(), 44 + 64 + 32 + 68 + 152);
    assert!(resp.len() < MIN_REQUEST_LENGTH as usize);
}
