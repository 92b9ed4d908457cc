use vstd::prelude::*;

verus! {

/// A directed, weighted relation between two named nodes. Node names are
/// UTF-8 byte strings; the weight is carried as the raw bit pattern of a
/// 64-bit IEEE 754 double, so that encoding it is exact.
#[derive(Debug, Clone, PartialEq)]
pub struct Edge {
    pub src: Vec<u8>,
    pub dest: Vec<u8>,
    pub weight_bits: u64,
}

/// Mathematical model of an `Edge`.
pub struct EdgeModel {
    pub src: Seq<u8>,
    pub dest: Seq<u8>,
    pub weight_bits: u64,
}

impl View for Edge {
    type V = EdgeModel;

    open spec fn view(&self) -> EdgeModel {
        EdgeModel { src: self.src@, dest: self.dest@, weight_bits: self.weight_bits }
    }
}

impl Edge {
    pub fn new(src: Vec<u8>, dest: Vec<u8>, weight_bits: u64) -> (r: Edge)
        ensures
            r@ == (EdgeModel { src: src@, dest: dest@, weight_bits }),
    {
        Edge { src, dest, weight_bits }
    }
}

/// A relevance score of `node` as seen from `ego`, as reported by the
/// backend. The score is carried as the bit pattern of a 64-bit double.
#[derive(Debug, Clone, PartialEq)]
pub struct NodeScore {
    pub node: Vec<u8>,
    pub ego: Vec<u8>,
    pub score_bits: u64,
}

/// Mathematical model of a `NodeScore`.
pub struct NodeScoreModel {
    pub node: Seq<u8>,
    pub ego: Seq<u8>,
    pub score_bits: u64,
}

impl View for NodeScore {
    type V = NodeScoreModel;

    open spec fn view(&self) -> NodeScoreModel {
        NodeScoreModel { node: self.node@, ego: self.ego@, score_bits: self.score_bits }
    }
}

impl NodeScore {
    pub fn new(node: Vec<u8>, ego: Vec<u8>, score_bits: u64) -> (r: NodeScore)
        ensures
            r@ == (NodeScoreModel { node: node@, ego: ego@, score_bits }),
    {
        NodeScore { node, ego, score_bits }
    }
}

/// The models of a sequence of scores, element by element.
pub open spec fn score_models(s: Seq<NodeScore>) -> Seq<NodeScoreModel> {
    s.map_values(|ns: NodeScore| ns@)
}

/// A query predicate `(field, operator, value)`, as the backend expects it.
#[derive(Debug, Clone, PartialEq)]
pub struct Filter {
    pub field: Vec<u8>,
    pub op: Vec<u8>,
    pub value: Vec<u8>,
}

/// Mathematical model of a `Filter`.
pub struct FilterModel {
    pub field: Seq<u8>,
    pub op: Seq<u8>,
    pub value: Seq<u8>,
}

impl View for Filter {
    type V = FilterModel;

    open spec fn view(&self) -> FilterModel {
        FilterModel { field: self.field@, op: self.op@, value: self.value@ }
    }
}

/// An RPC request value: positional arguments paired with (empty) options.
/// The positional arguments are either one edge record or a list of filter
/// triples.
#[derive(Debug, Clone, PartialEq)]
pub enum RpcRequest {
    EdgeArgs(Edge),
    FilterArgs(Vec<Filter>),
}

/// Mathematical model of an `RpcRequest`.
pub enum RpcRequestModel {
    EdgeArgs(EdgeModel),
    FilterArgs(Seq<FilterModel>),
}

impl View for RpcRequest {
    type V = RpcRequestModel;

    open spec fn view(&self) -> RpcRequestModel {
        match self {
            RpcRequest::EdgeArgs(e) => RpcRequestModel::EdgeArgs(e@),
            RpcRequest::FilterArgs(fs) => RpcRequestModel::FilterArgs(
                fs@.map_values(|f: Filter| f@),
            ),
        }
    }
}

/// Everything that can go wrong between accepting an HTTP request and
/// shaping its response. Message payloads are UTF-8 byte strings.
#[derive(Debug, Clone, PartialEq)]
pub enum GatewayError {
    /// Malformed path or body parameters.
    InvalidInput(Vec<u8>),
    /// The backend could not be reached.
    ConnectFailure(Vec<u8>),
    /// The request could not be sent.
    SendFailure(Vec<u8>),
    /// The backend explicitly reported a failure, as a string reply.
    BackendError(Vec<u8>),
    /// The reply bytes are neither a score sequence nor an error string.
    TransportDecodeFailure,
    /// A lookup that was expected to match returned nothing.
    NotFound,
}

/// Mathematical model of a `GatewayError`.
pub enum GatewayErrorModel {
    InvalidInput(Seq<u8>),
    ConnectFailure(Seq<u8>),
    SendFailure(Seq<u8>),
    BackendError(Seq<u8>),
    TransportDecodeFailure,
    NotFound,
}

impl View for GatewayError {
    type V = GatewayErrorModel;

    open spec fn view(&self) -> GatewayErrorModel {
        match self {
            GatewayError::InvalidInput(m) => GatewayErrorModel::InvalidInput(m@),
            GatewayError::ConnectFailure(m) => GatewayErrorModel::ConnectFailure(m@),
            GatewayError::SendFailure(m) => GatewayErrorModel::SendFailure(m@),
            GatewayError::BackendError(m) => GatewayErrorModel::BackendError(m@),
            GatewayError::TransportDecodeFailure => GatewayErrorModel::TransportDecodeFailure,
            GatewayError::NotFound => GatewayErrorModel::NotFound,
        }
    }
}

} // verus!
