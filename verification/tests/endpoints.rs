use pgmer1serv::decode::decode_reply;
use pgmer1serv::encode::encode_request;
use pgmer1serv::respond::{error_message, first_score, pairwise_reply, status_code};
use pgmer1serv::translate::{edge_request, pairwise_request, scores_request};
use pgmer1serv::types::{Edge, GatewayError, NodeScore};

fn edge(src: &str, dest: &str, weight: f64) -> Edge {
    Edge::new(
        src.as_bytes().to_vec(),
        dest.as_bytes().to_vec(),
        weight.to_bits(),
    )
}

fn score_reply(scores: &[(&str, &str, f64)]) -> Vec<u8> {
    let tuples: Vec<(String, String, f64)> = scores
        .iter()
        .map(|(n, e, s)| (n.to_string(), e.to_string(), *s))
        .collect();
    rmp_serde::to_vec(&tuples).expect("encodes")
}

#[test]
fn single_edge_query_scenario() {
    // GET /edge/a1/a2/3: the request carries ((Edge{a1,a2,3.0},), ()).
    let request = encode_request(&edge_request(edge("a1", "a2", 3.0)));
    let reference = ((("a1".to_string(), "a2".to_string(), 3.0),), ());
    assert_eq!(request, rmp_serde::to_vec(&reference).expect("encodes"));
    // The backend answers [{node:"a1",ego:"a2",score:0.5}]: HTTP 200 with
    // that one-element array.
    let reply = score_reply(&[("a1", "a2", 0.5)]);
    let scores = decode_reply(&reply).expect("success reply decodes");
    assert_eq!(scores.len(), 1);
    assert_eq!(scores[0].node, b"a1".to_vec());
    assert_eq!(scores[0].ego, b"a2".to_vec());
    assert_eq!(f64::from_bits(scores[0].score_bits), 0.5);
}

#[test]
fn edge_upsert_scenario() {
    // PUT /edge with body {"src":"a1","dest":"a2","weight":1.0}: the same
    // request shape; the backend answers [] and the HTTP layer wraps it as
    // {"message":[]}.
    let request = encode_request(&edge_request(edge("a1", "a2", 1.0)));
    let reference = ((("a1".to_string(), "a2".to_string(), 1.0),), ());
    assert_eq!(request, rmp_serde::to_vec(&reference).expect("encodes"));
    let reply = score_reply(&[]);
    let scores = decode_reply(&reply).expect("empty reply decodes");
    assert!(scores.is_empty());
}

#[test]
fn pairwise_lookup_empty_is_not_found() {
    // GET /node_score/a1/a2 with an empty backend reply: HTTP 404, not a
    // crash and not a 200 with a null body.
    let request = encode_request(&pairwise_request(b"a1".to_vec(), b"a2".to_vec()));
    assert!(!request.is_empty());
    let reply = score_reply(&[]);
    let r = pairwise_reply(&reply);
    assert_eq!(r, Err(GatewayError::NotFound));
    assert_eq!(status_code(&GatewayError::NotFound), 404);
}

#[test]
fn pairwise_lookup_takes_first_match() {
    let reply = score_reply(&[("a1", "a2", 0.5), ("a9", "a2", 0.1)]);
    let ns = pairwise_reply(&reply).expect("a match");
    assert_eq!(ns.node, b"a1".to_vec());
    assert_eq!(ns.ego, b"a2".to_vec());
    assert_eq!(f64::from_bits(ns.score_bits), 0.5);
}

#[test]
fn pairwise_lookup_surfaces_backend_error() {
    let reply = rmp_serde::to_vec(&"no such node").expect("encodes");
    let r = pairwise_reply(&reply);
    assert_eq!(r, Err(GatewayError::BackendError(b"no such node".to_vec())));
}

#[test]
fn all_scores_scenario() {
    // GET /scores/a1 with reply [{node:"a1",ego:"a1",score:1.0}]: HTTP 200
    // with a one-element array.
    let request = encode_request(&scores_request(b"a1".to_vec()));
    let reference = ((("src".to_string(), "=".to_string(), "a1".to_string()),), ());
    assert_eq!(request, rmp_serde::to_vec(&reference).expect("encodes"));
    let reply = score_reply(&[("a1", "a1", 1.0)]);
    let scores = decode_reply(&reply).expect("decodes");
    assert_eq!(scores.len(), 1);
    assert_eq!(scores[0].node, b"a1".to_vec());
    assert_eq!(scores[0].ego, b"a1".to_vec());
    assert_eq!(f64::from_bits(scores[0].score_bits), 1.0);
}

#[test]
fn unreachable_backend_scenario() {
    // The transport fails before any reply: the HTTP layer reports a
    // gateway failure with the underlying message behind the prefix.
    let failure = GatewayError::ConnectFailure(b"connection refused".to_vec());
    assert_eq!(status_code(&failure), 502);
    assert_eq!(
        error_message(&failure),
        b"Server error: connection refused".to_vec()
    );
}

#[test]
fn identical_queries_give_identical_results() {
    // The whole pipeline is a function of its inputs: repeating the
    // single-edge query against an unchanged reply repeats the outcome.
    let e = edge("a1", "a2", 3.0);
    let first_request = encode_request(&edge_request(e.clone()));
    let second_request = encode_request(&edge_request(e));
    assert_eq!(first_request, second_request);
    let reply = score_reply(&[("a1", "a2", 0.5)]);
    assert_eq!(decode_reply(&reply), decode_reply(&reply));
}

#[test]
fn first_score_picks_head() {
    let scores = vec![
        NodeScore::new(b"n1".to_vec(), b"e1".to_vec(), 1.0f64.to_bits()),
        NodeScore::new(b"n2".to_vec(), b"e1".to_vec(), 2.0f64.to_bits()),
    ];
    let first = first_score(scores).expect("nonempty");
    assert_eq!(first.node, b"n1".to_vec());
}

#[test]
fn first_score_empty_is_not_found() {
    assert_eq!(first_score(Vec::new()), Err(GatewayError::NotFound));
}

#[test]
fn status_codes_cover_every_failure() {
    assert_eq!(status_code(&GatewayError::InvalidInput(b"bad weight".to_vec())), 400);
    assert_eq!(status_code(&GatewayError::ConnectFailure(Vec::new())), 502);
    assert_eq!(status_code(&GatewayError::SendFailure(Vec::new())), 502);
    assert_eq!(status_code(&GatewayError::BackendError(Vec::new())), 500);
    assert_eq!(status_code(&GatewayError::TransportDecodeFailure), 500);
    assert_eq!(status_code(&GatewayError::NotFound), 404);
}

#[test]
fn error_messages_cover_every_failure() {
    assert_eq!(
        error_message(&GatewayError::InvalidInput(b"bad weight".to_vec())),
        b"bad weight".to_vec()
    );
    assert_eq!(
        error_message(&GatewayError::SendFailure(b"pipe closed".to_vec())),
        b"Server error: pipe closed".to_vec()
    );
    assert_eq!(
        error_message(&GatewayError::BackendError(b"boom".to_vec())),
        b"Server error: boom".to_vec()
    );
    assert_eq!(
        error_message(&GatewayError::TransportDecodeFailure),
        b"Server error: bad reply".to_vec()
    );
    assert_eq!(error_message(&GatewayError::NotFound), b"Not found".to_vec());
}
