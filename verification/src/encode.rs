use vstd::prelude::*;

use crate::types::{Edge, EdgeModel, Filter, FilterModel, NodeScoreModel, RpcRequest,
    RpcRequestModel};
use crate::wire::{array_hdr, float_enc, nil_enc, push_array_hdr, push_float, push_nil, push_str,
    str_enc, valid_count, valid_str};

verus! {

// ---------------------------------------------------------------------------
// The encodings of the gateway's values, as mathematics.
//
// An edge, a score and a filter triple each travel as a three-element array.
// A request value is the pair (positional arguments, options): a two-element
// array whose first element is the argument array and whose second is nil,
// the empty options tuple.
// ---------------------------------------------------------------------------

pub open spec fn valid_edge(e: EdgeModel) -> bool {
    valid_str(e.src) && valid_str(e.dest)
}

pub open spec fn valid_score(s: NodeScoreModel) -> bool {
    valid_str(s.node) && valid_str(s.ego)
}

pub open spec fn valid_filter(f: FilterModel) -> bool {
    valid_str(f.field) && valid_str(f.op) && valid_str(f.value)
}

pub open spec fn valid_scores(s: Seq<NodeScoreModel>) -> bool {
    valid_count(s.len() as int) && (forall|i: int| 0 <= i < s.len() ==> valid_score(#[trigger] s[i]))
}

pub open spec fn valid_filters(fs: Seq<FilterModel>) -> bool {
    valid_count(fs.len() as int) && (forall|i: int|
        0 <= i < fs.len() ==> valid_filter(#[trigger] fs[i]))
}

pub open spec fn valid_request(rq: RpcRequestModel) -> bool {
    match rq {
        RpcRequestModel::EdgeArgs(e) => valid_edge(e),
        RpcRequestModel::FilterArgs(fs) => valid_filters(fs),
    }
}

/// The encoding of one edge record: `[src, dest, weight]`.
pub open spec fn edge_enc(e: EdgeModel) -> Seq<u8> {
    array_hdr(3) + str_enc(e.src) + str_enc(e.dest) + float_enc(e.weight_bits)
}

/// The encoding of one score record: `[node, ego, score]`.
pub open spec fn score_enc(s: NodeScoreModel) -> Seq<u8> {
    array_hdr(3) + str_enc(s.node) + str_enc(s.ego) + float_enc(s.score_bits)
}

/// The encoding of one filter triple: `[field, op, value]`.
pub open spec fn filter_enc(f: FilterModel) -> Seq<u8> {
    array_hdr(3) + str_enc(f.field) + str_enc(f.op) + str_enc(f.value)
}

/// The element bytes of a score sequence, in order.
pub open spec fn scores_body_enc(s: Seq<NodeScoreModel>) -> Seq<u8>
    decreases s.len(),
{
    if s.len() == 0 {
        Seq::empty()
    } else {
        score_enc(s[0]) + scores_body_enc(s.skip(1))
    }
}

/// The encoding of a score sequence, the success shape of every reply.
pub open spec fn scores_enc(s: Seq<NodeScoreModel>) -> Seq<u8> {
    array_hdr(s.len() as int) + scores_body_enc(s)
}

/// The element bytes of a filter list, in order.
pub open spec fn filters_body_enc(fs: Seq<FilterModel>) -> Seq<u8>
    decreases fs.len(),
{
    if fs.len() == 0 {
        Seq::empty()
    } else {
        filter_enc(fs[0]) + filters_body_enc(fs.skip(1))
    }
}

/// The request value carrying one edge: `((edge,), ())`.
pub open spec fn edge_request_enc(e: EdgeModel) -> Seq<u8> {
    array_hdr(2) + array_hdr(1) + edge_enc(e) + nil_enc()
}

/// The request value carrying filter triples: `((f1, .., fn), ())`.
pub open spec fn filters_request_enc(fs: Seq<FilterModel>) -> Seq<u8> {
    array_hdr(2) + array_hdr(fs.len() as int) + filters_body_enc(fs) + nil_enc()
}

/// The encoding of any request value.
pub open spec fn request_enc(rq: RpcRequestModel) -> Seq<u8> {
    match rq {
        RpcRequestModel::EdgeArgs(e) => edge_request_enc(e),
        RpcRequestModel::FilterArgs(fs) => filters_request_enc(fs),
    }
}

/// Element bytes distribute over concatenation of score sequences.
pub proof fn lemma_scores_body_concat(a: Seq<NodeScoreModel>, b: Seq<NodeScoreModel>)
    ensures
        scores_body_enc(a + b) == scores_body_enc(a) + scores_body_enc(b),
    decreases a.len(),
{
    if a.len() == 0 {
        assert(a + b =~= b);
        assert(scores_body_enc(a) == Seq::<u8>::empty());
        assert(Seq::<u8>::empty() + scores_body_enc(b) =~= scores_body_enc(b));
    } else {
        assert((a + b).len() > 0);
        assert((a + b)[0] == a[0]);
        assert((a + b).skip(1) =~= a.skip(1) + b);
        lemma_scores_body_concat(a.skip(1), b);
        assert(scores_body_enc(a + b) == score_enc(a[0]) + (scores_body_enc(a.skip(1))
            + scores_body_enc(b)));
        assert(score_enc(a[0]) + (scores_body_enc(a.skip(1)) + scores_body_enc(b)) =~= (score_enc(
            a[0],
        ) + scores_body_enc(a.skip(1))) + scores_body_enc(b));
    }
}

/// Appending an element to a score sequence appends its encoding.
pub proof fn lemma_scores_body_snoc(s: Seq<NodeScoreModel>, x: NodeScoreModel)
    ensures
        scores_body_enc(s.push(x)) == scores_body_enc(s) + score_enc(x),
{
    assert(s.push(x) =~= s + seq![x]);
    lemma_scores_body_concat(s, seq![x]);
    assert(seq![x].skip(1) =~= Seq::<NodeScoreModel>::empty());
    assert(seq![x][0] == x);
    assert(scores_body_enc(Seq::<NodeScoreModel>::empty()) == Seq::<u8>::empty());
    assert(scores_body_enc(seq![x]) == score_enc(x) + Seq::<u8>::empty());
    assert(score_enc(x) + Seq::<u8>::empty() =~= score_enc(x));
}

/// Element bytes distribute over concatenation of filter lists.
pub proof fn lemma_filters_body_concat(a: Seq<FilterModel>, b: Seq<FilterModel>)
    ensures
        filters_body_enc(a + b) == filters_body_enc(a) + filters_body_enc(b),
    decreases a.len(),
{
    if a.len() == 0 {
        assert(a + b =~= b);
        assert(filters_body_enc(a) == Seq::<u8>::empty());
        assert(Seq::<u8>::empty() + filters_body_enc(b) =~= filters_body_enc(b));
    } else {
        assert((a + b).len() > 0);
        assert((a + b)[0] == a[0]);
        assert((a + b).skip(1) =~= a.skip(1) + b);
        lemma_filters_body_concat(a.skip(1), b);
        assert(filters_body_enc(a + b) == filter_enc(a[0]) + (filters_body_enc(a.skip(1))
            + filters_body_enc(b)));
        assert(filter_enc(a[0]) + (filters_body_enc(a.skip(1)) + filters_body_enc(b)) =~= (
        filter_enc(a[0]) + filters_body_enc(a.skip(1))) + filters_body_enc(b));
    }
}

/// Appending a filter to a list appends its encoding.
pub proof fn lemma_filters_body_snoc(fs: Seq<FilterModel>, x: FilterModel)
    ensures
        filters_body_enc(fs.push(x)) == filters_body_enc(fs) + filter_enc(x),
{
    assert(fs.push(x) =~= fs + seq![x]);
    lemma_filters_body_concat(fs, seq![x]);
    assert(seq![x].skip(1) =~= Seq::<FilterModel>::empty());
    assert(seq![x][0] == x);
    assert(filters_body_enc(Seq::<FilterModel>::empty()) == Seq::<u8>::empty());
    assert(filters_body_enc(seq![x]) == filter_enc(x) + Seq::<u8>::empty());
    assert(filter_enc(x) + Seq::<u8>::empty() =~= filter_enc(x));
}

// ---------------------------------------------------------------------------
// The encoder.
// ---------------------------------------------------------------------------

/// Appends the encoding of one edge record.
fn push_edge(out: &mut Vec<u8>, e: &Edge)
    requires
        valid_edge(e@),
    ensures
        final(out)@ == old(out)@ + edge_enc(e@),
{
    push_array_hdr(out, 3);
    push_str(out, &e.src);
    push_str(out, &e.dest);
    push_float(out, e.weight_bits);
    assert(out@ =~= old(out)@ + edge_enc(e@));
}

/// Appends the encoding of one filter triple.
fn push_filter(out: &mut Vec<u8>, f: &Filter)
    requires
        valid_filter(f@),
    ensures
        final(out)@ == old(out)@ + filter_enc(f@),
{
    push_array_hdr(out, 3);
    push_str(out, &f.field);
    push_str(out, &f.op);
    push_str(out, &f.value);
    assert(out@ =~= old(out)@ + filter_enc(f@));
}

/// Serializes an RPC request value into the binary tuple format the backend
/// expects. Deterministic and lossless: the result is exactly `request_enc`
/// of the value's model.
pub fn encode_request(rq: &RpcRequest) -> (r: Vec<u8>)
    requires
        valid_request(rq@),
    ensures
        r@ == request_enc(rq@),
{
    let mut out: Vec<u8> = Vec::new();
    push_array_hdr(&mut out, 2);
    match rq {
        RpcRequest::EdgeArgs(e) => {
            push_array_hdr(&mut out, 1);
            push_edge(&mut out, e);
            push_nil(&mut out);
            assert(out@ =~= request_enc(rq@));
        },
        RpcRequest::FilterArgs(fs) => {
            let n = fs.len();
            push_array_hdr(&mut out, n);
            let ghost ms = fs@.map_values(|f: Filter| f@);
            assert(ms.len() == fs@.len());
            let ghost pre = out@;
            assert(filters_body_enc(ms.take(0)) =~= Seq::<u8>::empty());
            assert(out@ =~= pre + filters_body_enc(ms.take(0)));
            let mut i: usize = 0;
            while i < n
                invariant
                    n == fs@.len(),
                    ms == fs@.map_values(|f: Filter| f@),
                    valid_filters(ms),
                    i <= n,
                    out@ == pre + filters_body_enc(ms.take(i as int)),
                decreases n - i,
            {
                proof {
                    assert(ms[i as int] == fs@[i as int]@);
                }
                push_filter(&mut out, &fs[i]);
                proof {
                    assert(ms.take(i as int).push(ms[i as int]) =~= ms.take(i + 1));
                    lemma_filters_body_snoc(ms.take(i as int), ms[i as int]);
                }
                i += 1;
            }
            assert(ms.take(n as int) =~= ms);
            push_nil(&mut out);
            assert(out@ =~= request_enc(rq@));
        },
    }
    out
}

} // verus!
