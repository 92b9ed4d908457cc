use pgmer1serv::decode::{decode_edge_request, decode_error_str, decode_reply, decode_scores};
use pgmer1serv::encode::encode_request;
use pgmer1serv::translate::{edge_request, pairwise_request, scores_request};
use pgmer1serv::types::{Edge, GatewayError, NodeScore, RpcRequest};

fn edge(src: &str, dest: &str, weight: f64) -> Edge {
    Edge::new(
        src.as_bytes().to_vec(),
        dest.as_bytes().to_vec(),
        weight.to_bits(),
    )
}

// The request value shape the backend expects, as plain tuples that
// rmp-serde can read and write for cross-checking.
type EdgeTuple = (String, String, f64);
type EdgeRequestTuple = ((EdgeTuple,), ());
type FilterTuple = (String, String, String);

#[test]
fn edge_request_round_trip() {
    let e = edge("a1", "a2", 3.0);
    let bytes = encode_request(&edge_request(e.clone()));
    let back = decode_edge_request(&bytes).expect("the encoding must decode");
    assert_eq!(back, e);
}

#[test]
fn edge_request_round_trip_keeps_exact_bits() {
    let e = edge("a1", "a2", f64::NAN);
    let bytes = encode_request(&edge_request(e.clone()));
    let back = decode_edge_request(&bytes).expect("the encoding must decode");
    assert_eq!(back.weight_bits, f64::NAN.to_bits());
    assert_eq!(back, e);
}

#[test]
fn edge_request_round_trip_empty_names() {
    let e = edge("", "", 0.0);
    let bytes = encode_request(&edge_request(e.clone()));
    assert_eq!(decode_edge_request(&bytes), Some(e));
}

#[test]
fn edge_request_round_trip_long_names() {
    // One name per string-header form: fixstr, str8, str16.
    let s8 = "x".repeat(40);
    let s16 = "y".repeat(300);
    let e = edge(&s8, &s16, -1.5);
    let bytes = encode_request(&edge_request(e.clone()));
    assert_eq!(decode_edge_request(&bytes), Some(e));
}

#[test]
fn edge_request_matches_msgpack_writer() {
    let e = edge("a1", "a2", 3.0);
    let bytes = encode_request(&edge_request(e));
    let reference: EdgeRequestTuple = ((("a1".to_string(), "a2".to_string(), 3.0),), ());
    let expected = rmp_serde::to_vec(&reference).expect("encodes");
    assert_eq!(bytes, expected);
}

#[test]
fn edge_request_reads_back_through_msgpack() {
    let e = edge("a1", "a2", 3.0);
    let bytes = encode_request(&edge_request(e));
    let decoded: EdgeRequestTuple = rmp_serde::from_slice(&bytes).expect("decodes");
    assert_eq!((decoded.0).0 .0, "a1");
    assert_eq!((decoded.0).0 .1, "a2");
    assert_eq!((decoded.0).0 .2, 3.0);
}

#[test]
fn edge_request_long_names_match_msgpack_writer() {
    let s8 = "x".repeat(40);
    let s16 = "y".repeat(300);
    let e = edge(&s8, &s16, -1.5);
    let bytes = encode_request(&edge_request(e));
    let reference: EdgeRequestTuple = (((s8, s16, -1.5),), ());
    assert_eq!(bytes, rmp_serde::to_vec(&reference).expect("encodes"));
}

#[test]
fn pairwise_request_matches_msgpack_writer() {
    let rq = pairwise_request(b"a1".to_vec(), b"a2".to_vec());
    let bytes = encode_request(&rq);
    let reference = (
        (
            ("src".to_string(), "=".to_string(), "a1".to_string()),
            ("dest".to_string(), "=".to_string(), "a2".to_string()),
        ),
        (),
    );
    assert_eq!(bytes, rmp_serde::to_vec(&reference).expect("encodes"));
}

#[test]
fn scores_request_matches_msgpack_writer() {
    let rq = scores_request(b"a1".to_vec());
    let bytes = encode_request(&rq);
    let reference: ((FilterTuple,), ()) = (
        (("src".to_string(), "=".to_string(), "a1".to_string()),),
        (),
    );
    assert_eq!(bytes, rmp_serde::to_vec(&reference).expect("encodes"));
}

#[test]
fn encode_request_is_deterministic() {
    let rq = pairwise_request(b"a1".to_vec(), b"a2".to_vec());
    assert_eq!(encode_request(&rq), encode_request(&rq));
}

fn score_reply(scores: &[(&str, &str, f64)]) -> Vec<u8> {
    let tuples: Vec<(String, String, f64)> = scores
        .iter()
        .map(|(n, e, s)| (n.to_string(), e.to_string(), *s))
        .collect();
    rmp_serde::to_vec(&tuples).expect("encodes")
}

#[test]
fn dual_decode_takes_valid_scores() {
    let reply = score_reply(&[("n1", "e1", 0.5)]);
    let scores = decode_reply(&reply).expect("a score reply decodes");
    assert_eq!(scores.len(), 1);
    assert_eq!(scores[0].node, b"n1".to_vec());
    assert_eq!(scores[0].ego, b"e1".to_vec());
    assert_eq!(scores[0].score_bits, 0.5f64.to_bits());
}

#[test]
fn dual_decode_takes_error_string() {
    let reply = rmp_serde::to_vec(&"query refused").expect("encodes");
    let r = decode_reply(&reply);
    assert_eq!(
        r,
        Err(GatewayError::BackendError(b"query refused".to_vec()))
    );
}

#[test]
fn dual_decode_takes_empty_error_string() {
    let reply = rmp_serde::to_vec(&"").expect("encodes");
    assert_eq!(reply, vec![0xa0u8]);
    assert_eq!(decode_reply(&reply), Err(GatewayError::BackendError(Vec::new())));
}

#[test]
fn dual_decode_rejects_garbage() {
    let reply = vec![0xc1u8, 0x00, 0xff];
    assert_eq!(decode_reply(&reply), Err(GatewayError::TransportDecodeFailure));
}

#[test]
fn dual_decode_rejects_trailing_bytes() {
    let mut reply = score_reply(&[("n1", "e1", 0.5)]);
    reply.push(0x00);
    assert_eq!(decode_reply(&reply), Err(GatewayError::TransportDecodeFailure));
}

#[test]
fn dual_decode_rejects_truncated_reply() {
    let mut reply = score_reply(&[("n1", "e1", 0.5)]);
    reply.pop();
    assert_eq!(decode_reply(&reply), Err(GatewayError::TransportDecodeFailure));
}

#[test]
fn dual_decode_is_repeatable() {
    let reply = score_reply(&[("n1", "e1", 0.25), ("n2", "e1", 0.75)]);
    assert_eq!(decode_reply(&reply), decode_reply(&reply));
}

#[test]
fn decode_scores_takes_empty_reply() {
    let reply = score_reply(&[]);
    assert_eq!(reply, vec![0x90u8]);
    let scores = decode_scores(&reply).expect("the empty sequence decodes");
    assert!(scores.is_empty());
}

#[test]
fn decode_scores_takes_sixteen_elements() {
    // Sixteen elements force the longer array header form.
    let entries: Vec<(&str, &str, f64)> = (0..16).map(|_| ("n", "e", 1.0)).collect();
    let reply = score_reply(&entries);
    assert_eq!(reply[0], 0xdc);
    let scores = decode_scores(&reply).expect("decodes");
    assert_eq!(scores.len(), 16);
}

#[test]
fn decode_error_str_takes_only_whole_strings() {
    let reply = rmp_serde::to_vec(&"oops").expect("encodes");
    assert_eq!(decode_error_str(&reply), Some(b"oops".to_vec()));
    let mut trailing = reply.clone();
    trailing.push(0x00);
    assert_eq!(decode_error_str(&trailing), None);
}

#[test]
fn request_kinds_differ() {
    let a = encode_request(&edge_request(edge("a1", "a2", 1.0)));
    let b = encode_request(&pairwise_request(b"a1".to_vec(), b"a2".to_vec()));
    assert_ne!(a, b);
}

#[test]
fn request_value_shapes() {
    let rq = edge_request(edge("a1", "a2", 1.0));
    assert!(matches!(rq, RpcRequest::EdgeArgs(_)));
    let rq = scores_request(b"a1".to_vec());
    match rq {
        RpcRequest::FilterArgs(fs) => {
            assert_eq!(fs.len(), 1);
            assert_eq!(fs[0].field, b"src".to_vec());
            assert_eq!(fs[0].op, b"=".to_vec());
            assert_eq!(fs[0].value, b"a1".to_vec());
        },
        _ => panic!("expected filters"),
    }
}

#[test]
fn scores_reply_reads_back_through_msgpack() {
    // A reply our own encoder shape matches what rmp-serde produced.
    let reply = score_reply(&[("a1", "a2", 0.5)]);
    let decoded: Vec<NodeScore> = decode_scores(&reply).expect("decodes");
    let as_tuples: Vec<(String, String, f64)> =
        rmp_serde::from_slice(&reply).expect("reference decodes");
    assert_eq!(decoded.len(), as_tuples.len());
    assert_eq!(String::from_utf8(decoded[0].node.clone()).unwrap(), as_tuples[0].0);
    assert_eq!(String::from_utf8(decoded[0].ego.clone()).unwrap(), as_tuples[0].1);
    assert_eq!(f64::from_bits(decoded[0].score_bits), as_tuples[0].2);
}
