//! The wire data model: the request, response, header, method and transform
//! records, together with their mathematical models (views).

use vstd::prelude::*;

verus! {

/// One HTTP header: a name and a value, both text.
#[derive(Debug, Clone, PartialEq, Eq)]
pub struct HttpHeader {
    /// Name of the header.
    pub name: String,
    /// Value of the header.
    pub value: String,
}

/// Mathematical value of an [`HttpHeader`].
pub struct HeaderModel {
    pub name: Seq<char>,
    pub value: Seq<char>,
}

impl View for HttpHeader {
    type V = HeaderModel;

    open spec fn view(&self) -> HeaderModel {
        HeaderModel { name: self.name@, value: self.value@ }
    }
}

/// HTTP request verb. On the wire the variant is tagged `get`, `post` or
/// `head` (lower case), never the variant's own spelling.
#[derive(Debug, Clone, Copy, PartialEq, Eq, Structural)]
pub enum HttpMethod {
    /// GET
    GET,
    /// POST
    POST,
    /// HEAD
    HEAD,
}

/// Reference to a query method on a remote canister: the target principal's
/// raw bytes together with the method name. On the wire this is an IDL
/// function reference (address + method name), never a two-field record.
#[derive(Debug, Clone, PartialEq, Eq)]
pub struct TransformFunc {
    /// Raw bytes of the principal that owns the transform method.
    pub principal: Vec<u8>,
    /// Name of the transform method.
    pub method: String,
}

/// Mathematical value of a [`TransformFunc`].
pub struct FuncModel {
    pub principal: Seq<u8>,
    pub method: Seq<char>,
}

impl View for TransformFunc {
    type V = FuncModel;

    open spec fn view(&self) -> FuncModel {
        FuncModel { principal: self.principal@, method: self.method@ }
    }
}

/// Bundles the transform callback with opaque caller state; the `context`
/// bytes are never interpreted here, only carried through.
#[derive(Debug, Clone, PartialEq, Eq)]
pub struct TransformContext {
    /// The transform callback reference.
    pub function: TransformFunc,
    /// Opaque bytes handed back to the transform function.
    pub context: Vec<u8>,
}

/// Mathematical value of a [`TransformContext`].
pub struct TransformModel {
    pub function: FuncModel,
    pub context: Seq<u8>,
}

impl View for TransformContext {
    type V = TransformModel;

    open spec fn view(&self) -> TransformModel {
        TransformModel { function: self.function@, context: self.context@ }
    }
}

/// An outbound HTTP request, as handed to the host's `http_request` method.
#[derive(Debug, Clone, PartialEq, Eq)]
pub struct CanisterHttpRequestArgument {
    /// The requested URL.
    pub url: String,
    /// The maximal size of the response in bytes. If `None`, 2 MiB is the
    /// cap used for cost computation; the argument itself is left unchanged.
    pub max_response_bytes: Option<u64>,
    /// The method of the HTTP request.
    pub method: HttpMethod,
    /// List of HTTP request headers; order is preserved on the wire.
    pub headers: Vec<HttpHeader>,
    /// Optional request body.
    pub body: Option<Vec<u8>>,
    /// Optional transform callback applied by the host to the raw response.
    pub transform: Option<TransformContext>,
}

/// Mathematical value of a [`CanisterHttpRequestArgument`].
pub struct RequestModel {
    pub url: Seq<char>,
    pub max_response_bytes: Option<u64>,
    pub method: HttpMethod,
    pub headers: Seq<HeaderModel>,
    pub body: Option<Seq<u8>>,
    pub transform: Option<TransformModel>,
}

impl View for CanisterHttpRequestArgument {
    type V = RequestModel;

    open spec fn view(&self) -> RequestModel {
        RequestModel {
            url: self.url@,
            max_response_bytes: self.max_response_bytes,
            method: self.method,
            headers: self.headers@.map_values(|h: HttpHeader| h@),
            body: match self.body {
                Some(b) => Some(b@),
                None => None,
            },
            transform: match self.transform {
                Some(t) => Some(t@),
                None => None,
            },
        }
    }
}

/// The returned HTTP response. On the wire `status` is an unbounded natural
/// number; values beyond 128 bits are rejected at decode time.
#[derive(Debug, Clone, PartialEq, Eq)]
pub struct HttpResponse {
    /// The response status (e.g., 200, 404).
    pub status: u128,
    /// List of HTTP response headers; order is preserved.
    pub headers: Vec<HttpHeader>,
    /// The response's body.
    pub body: Vec<u8>,
}

/// Mathematical value of an [`HttpResponse`].
pub struct ResponseModel {
    pub status: u128,
    pub headers: Seq<HeaderModel>,
    pub body: Seq<u8>,
}

impl View for HttpResponse {
    type V = ResponseModel;

    open spec fn view(&self) -> ResponseModel {
        ResponseModel {
            status: self.status,
            headers: self.headers@.map_values(|h: HttpHeader| h@),
            body: self.body@,
        }
    }
}

/// The record the host passes into the transform callback: the raw response
/// and the caller's opaque context bytes.
#[derive(Debug, Clone, PartialEq, Eq)]
pub struct TransformArgs {
    /// The raw HTTP response to be transformed.
    pub response: HttpResponse,
    /// Opaque bytes provided by the caller of the outcall.
    pub context: Vec<u8>,
}

/// Mathematical value of a [`TransformArgs`].
pub struct TransformArgsModel {
    pub response: ResponseModel,
    pub context: Seq<u8>,
}

impl View for TransformArgs {
    type V = TransformArgsModel;

    open spec fn view(&self) -> TransformArgsModel {
        TransformArgsModel { response: self.response@, context: self.context@ }
    }
}

/// Why an outcall attempt failed. Every failure is returned to the caller;
/// none is swallowed, and none is turned into a default response.
#[derive(Debug, Clone, PartialEq, Eq)]
pub enum OutcallError {
    /// The outgoing argument could not be produced in the required wire
    /// form; no call was attempted.
    EncodingError,
    /// The host rejected the call or it failed in transit; the host's
    /// rejection code and message are carried verbatim.
    CallError { code: u32, message: String },
    /// The bytes the host returned were not a valid response encoding.
    DecodingError,
}

} // verus!
