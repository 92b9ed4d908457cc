use vstd::prelude::*;

use crate::decode::decode_reply;
use crate::encode::{scores_enc, valid_scores};
use crate::types::{score_models, GatewayError, GatewayErrorModel, NodeScore, NodeScoreModel};
use crate::wire::{str_enc, valid_str};

verus! {

// ---------------------------------------------------------------------------
// Response mappers and the HTTP shape of failures.
// ---------------------------------------------------------------------------

/// Takes the first score of a decoded sequence. An empty sequence is an
/// explicit "no match" result, never an out-of-bounds access: the backend is
/// not trusted to return at least one element.
pub fn first_score(scores: Vec<NodeScore>) -> (r: Result<NodeScore, GatewayError>)
    ensures
        scores@.len() == 0 ==> (r matches Err(e) && e is NotFound),
        scores@.len() > 0 ==> (r matches Ok(ns) && ns@ == scores@[0]@),
{
    if scores.len() == 0 {
        Err(GatewayError::NotFound)
    } else {
        let mut scores = scores;
        let first = scores.remove(0);
        Ok(first)
    }
}

/// The HTTP status that reports each failure: bad input 400, no match 404,
/// unreachable backend 502, and backend-reported or protocol failures 500.
pub open spec fn status_of(e: GatewayErrorModel) -> u16 {
    match e {
        GatewayErrorModel::InvalidInput(_) => 400,
        GatewayErrorModel::ConnectFailure(_) => 502,
        GatewayErrorModel::SendFailure(_) => 502,
        GatewayErrorModel::BackendError(_) => 500,
        GatewayErrorModel::TransportDecodeFailure => 500,
        GatewayErrorModel::NotFound => 404,
    }
}

/// Maps a failure to its HTTP status code.
pub fn status_code(e: &GatewayError) -> (s: u16)
    ensures
        s == status_of(e@),
{
    match e {
        GatewayError::InvalidInput(_) => 400,
        GatewayError::ConnectFailure(_) => 502,
        GatewayError::SendFailure(_) => 502,
        GatewayError::BackendError(_) => 500,
        GatewayError::TransportDecodeFailure => 500,
        GatewayError::NotFound => 404,
    }
}

/// The prefix of every message about a failed backend exchange.
pub open spec fn server_error_prefix() -> Seq<u8> {
    seq![83u8, 101u8, 114u8, 118u8, 101u8, 114u8, 32u8, 101u8, 114u8, 114u8, 111u8, 114u8, 58u8, 32u8]
}

/// The message reporting an empty pairwise lookup.
pub open spec fn not_found_text() -> Seq<u8> {
    seq![78u8, 111u8, 116u8, 32u8, 102u8, 111u8, 117u8, 110u8, 100u8]
}

/// The message reporting a reply that fits neither expected shape.
pub open spec fn bad_reply_text() -> Seq<u8> {
    seq![98u8, 97u8, 100u8, 32u8, 114u8, 101u8, 112u8, 108u8, 121u8]
}

/// The message body for each failure. Backend exchange failures carry the
/// underlying message behind the server-error prefix.
pub open spec fn message_of(e: GatewayErrorModel) -> Seq<u8> {
    match e {
        GatewayErrorModel::InvalidInput(m) => m,
        GatewayErrorModel::ConnectFailure(m) => server_error_prefix() + m,
        GatewayErrorModel::SendFailure(m) => server_error_prefix() + m,
        GatewayErrorModel::BackendError(m) => server_error_prefix() + m,
        GatewayErrorModel::TransportDecodeFailure => server_error_prefix() + bad_reply_text(),
        GatewayErrorModel::NotFound => not_found_text(),
    }
}

fn extend_bytes(out: &mut Vec<u8>, add: &Vec<u8>)
    ensures
        final(out)@ == old(out)@ + add@,
{
    let ghost mid = out@;
    let mut i: usize = 0;
    while i < add.len()
        invariant
            i <= add@.len(),
            out@ == mid + add@.subrange(0, i as int),
        decreases add@.len() - i,
    {
        out.push(add[i]);
        i += 1;
        assert(out@ =~= mid + add@.subrange(0, i as int));
    }
    assert(add@.subrange(0, add@.len() as int) =~= add@);
    assert(out@ =~= mid + add@);
}

fn push_server_error_prefix(out: &mut Vec<u8>)
    ensures
        final(out)@ == old(out)@ + server_error_prefix(),
{
    out.push(83u8);
    out.push(101u8);
    out.push(114u8);
    out.push(118u8);
    out.push(101u8);
    out.push(114u8);
    out.push(32u8);
    out.push(101u8);
    out.push(114u8);
    out.push(114u8);
    out.push(111u8);
    out.push(114u8);
    out.push(58u8);
    out.push(32u8);
    assert(out@ =~= old(out)@ + server_error_prefix());
}

/// Renders the message body for a failure.
pub fn error_message(e: &GatewayError) -> (r: Vec<u8>)
    ensures
        r@ == message_of(e@),
{
    let mut out: Vec<u8> = Vec::new();
    match e {
        GatewayError::InvalidInput(m) => {
            extend_bytes(&mut out, m);
        },
        GatewayError::ConnectFailure(m) => {
            push_server_error_prefix(&mut out);
            extend_bytes(&mut out, m);
        },
        GatewayError::SendFailure(m) => {
            push_server_error_prefix(&mut out);
            extend_bytes(&mut out, m);
        },
        GatewayError::BackendError(m) => {
            push_server_error_prefix(&mut out);
            extend_bytes(&mut out, m);
        },
        GatewayError::TransportDecodeFailure => {
            push_server_error_prefix(&mut out);
            out.push(98u8);
            out.push(97u8);
            out.push(100u8);
            out.push(32u8);
            out.push(114u8);
            out.push(101u8);
            out.push(112u8);
            out.push(108u8);
            out.push(121u8);
            assert(out@ =~= server_error_prefix() + bad_reply_text());
        },
        GatewayError::NotFound => {
            out.push(78u8);
            out.push(111u8);
            out.push(116u8);
            out.push(32u8);
            out.push(102u8);
            out.push(111u8);
            out.push(117u8);
            out.push(110u8);
            out.push(100u8);
            assert(out@ =~= not_found_text());
        },
    }
    proof {
        assert(out@ == message_of(e@));
    }
    out
}

/// Resolves a pairwise-lookup reply: decode it, then take the first match.
/// A reply encoding the empty sequence is a clean "not found"; a reply
/// encoding one or more scores yields the first; a reply encoding an error
/// string surfaces it as a backend error.
pub fn pairwise_reply(bytes: &Vec<u8>) -> (r: Result<NodeScore, GatewayError>)
    ensures
        forall|v: Seq<NodeScoreModel>|
            valid_scores(v) && bytes@ == #[trigger] scores_enc(v) && v.len() == 0 ==> (r matches Err(
                e,
            ) && e is NotFound),
        forall|v: Seq<NodeScoreModel>|
            valid_scores(v) && bytes@ == #[trigger] scores_enc(v) && v.len() > 0 ==> (r matches Ok(
                ns,
            ) && ns@ == v[0]),
        forall|m: Seq<u8>|
            valid_str(m) && bytes@ == #[trigger] str_enc(m) ==> (r matches Err(e) && e@
                == GatewayErrorModel::BackendError(m)),
        r matches Err(e) ==> (e is NotFound || e is BackendError || e is TransportDecodeFailure),
        r matches Ok(ns) ==> exists|v: Seq<NodeScoreModel>|
            valid_scores(v) && bytes@ == #[trigger] scores_enc(v) && v.len() > 0 && ns@ == v[0],
{
    match decode_reply(bytes) {
        Ok(v) => {
            let ghost vm = score_models(v@);
            proof {
                assert(bytes@ == scores_enc(vm));
                assert(vm.len() == v@.len());
            }
            first_score(v)
        },
        Err(e) => Err(e),
    }
}

} // verus!
