use vstd::prelude::*;

use crate::encode::{valid_filters, valid_request};
use crate::types::{Edge, Filter, FilterModel, RpcRequest, RpcRequestModel};
use crate::wire::valid_str;

verus! {

// ---------------------------------------------------------------------------
// Request translators: from HTTP inputs to RPC request values.
//
// The single-edge query and the edge upsert both send `((edge,), ())`. The
// pairwise lookup sends the filters `[("src","=",ego), ("dest","=",target)]`
// and the all-scores query sends `[("src","=",ego)]`, each paired with empty
// options.
// ---------------------------------------------------------------------------

/// The filter field naming an edge's source node.
pub open spec fn src_field() -> Seq<u8> {
    seq![115u8, 114u8, 99u8]
}

/// The filter field naming an edge's destination node.
pub open spec fn dest_field() -> Seq<u8> {
    seq![100u8, 101u8, 115u8, 116u8]
}

/// The equality operator of a filter triple.
pub open spec fn eq_op() -> Seq<u8> {
    seq![61u8]
}

/// The filters of the pairwise lookup: source is `ego`, destination is
/// `target`.
pub open spec fn pairwise_filters(ego: Seq<u8>, target: Seq<u8>) -> Seq<FilterModel> {
    seq![
        FilterModel { field: src_field(), op: eq_op(), value: ego },
        FilterModel { field: dest_field(), op: eq_op(), value: target },
    ]
}

/// The filter of the all-scores query: source is `ego`.
pub open spec fn ego_filters(ego: Seq<u8>) -> Seq<FilterModel> {
    seq![FilterModel { field: src_field(), op: eq_op(), value: ego }]
}

fn src_field_vec() -> (r: Vec<u8>)
    ensures
        r@ == src_field(),
{
    let mut v: Vec<u8> = Vec::new();
    v.push(115u8);
    v.push(114u8);
    v.push(99u8);
    assert(v@ =~= src_field());
    v
}

fn dest_field_vec() -> (r: Vec<u8>)
    ensures
        r@ == dest_field(),
{
    let mut v: Vec<u8> = Vec::new();
    v.push(100u8);
    v.push(101u8);
    v.push(115u8);
    v.push(116u8);
    assert(v@ =~= dest_field());
    v
}

fn eq_op_vec() -> (r: Vec<u8>)
    ensures
        r@ == eq_op(),
{
    let mut v: Vec<u8> = Vec::new();
    v.push(61u8);
    assert(v@ =~= eq_op());
    v
}

/// Builds the request value of the single-edge query and of the edge
/// upsert: the edge as sole positional argument, with empty options.
pub fn edge_request(e: Edge) -> (r: RpcRequest)
    ensures
        r@ == RpcRequestModel::EdgeArgs(e@),
{
    RpcRequest::EdgeArgs(e)
}

/// Builds the request value of the pairwise lookup for `(ego, target)`.
pub fn pairwise_request(ego: Vec<u8>, target: Vec<u8>) -> (r: RpcRequest)
    ensures
        r@ == RpcRequestModel::FilterArgs(pairwise_filters(ego@, target@)),
        valid_str(ego@) && valid_str(target@) ==> valid_request(r@),
{
    let f1 = Filter { field: src_field_vec(), op: eq_op_vec(), value: ego };
    let f2 = Filter { field: dest_field_vec(), op: eq_op_vec(), value: target };
    let mut fs: Vec<Filter> = Vec::new();
    fs.push(f1);
    fs.push(f2);
    let r = RpcRequest::FilterArgs(fs);
    proof {
        let ms = fs@.map_values(|f: Filter| f@);
        assert(ms =~= pairwise_filters(ego@, target@));
        if valid_str(ego@) && valid_str(target@) {
            assert forall|i: int| 0 <= i < ms.len() implies crate::encode::valid_filter(
                #[trigger] ms[i],
            ) by {}
            assert(valid_filters(ms));
        }
    }
    r
}

/// Builds the request value of the all-scores query for `ego`.
pub fn scores_request(ego: Vec<u8>) -> (r: RpcRequest)
    ensures
        r@ == RpcRequestModel::FilterArgs(ego_filters(ego@)),
        valid_str(ego@) ==> valid_request(r@),
{
    let f1 = Filter { field: src_field_vec(), op: eq_op_vec(), value: ego };
    let mut fs: Vec<Filter> = Vec::new();
    fs.push(f1);
    let r = RpcRequest::FilterArgs(fs);
    proof {
        let ms = fs@.map_values(|f: Filter| f@);
        assert(ms =~= ego_filters(ego@));
        if valid_str(ego@) {
            assert forall|i: int| 0 <= i < ms.len() implies crate::encode::valid_filter(
                #[trigger] ms[i],
            ) by {}
            assert(valid_filters(ms));
        }
    }
    r
}

} // verus!
