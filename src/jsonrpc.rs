//! JSON-RPC envelopes as the routing engine sees them: JSON values travel as
//! their text, and the engine only moves, compares and frames them.
use vstd::prelude::*;

verus! {

/// Error code of internal failures surfaced to the client.
pub const INTERNAL_ERROR: i64 = -32603;

/// A client request. `id` and `params` hold the JSON text of those members.
pub struct Request {
    pub id: String,
    pub method: String,
    pub params: String,
}

/// What a response carries besides its id.
pub enum Payload {
    Result(String),
    Error { code: i64, message: String },
}

/// A response `{jsonrpc:"2.0", id, result}` or `{jsonrpc:"2.0", id, error:{code, message}}`.
pub struct Response {
    pub id: String,
    pub payload: Payload,
}

pub ghost enum PayloadView {
    Result(Seq<char>),
    Error(int, Seq<char>),
}

pub ghost struct ResponseView {
    pub id: Seq<char>,
    pub payload: PayloadView,
}

impl View for Payload {
    type V = PayloadView;

    open spec fn view(&self) -> PayloadView {
        match self {
            Payload::Result(r) => PayloadView::Result(r@),
            Payload::Error { code, message } => PayloadView::Error(*code as int, message@),
        }
    }
}

impl View for Response {
    type V = ResponseView;

    open spec fn view(&self) -> ResponseView {
        ResponseView { id: self.id@, payload: self.payload@ }
    }
}

impl Payload {
    pub fn duplicate(&self) -> (r: Payload)
        ensures
            r@ == self@,
    {
        match self {
            Payload::Result(s) => Payload::Result(s.clone()),
            Payload::Error { code, message } => Payload::Error { code: *code, message: message.clone() },
        }
    }
}

impl Response {
    /// A copy of this response that answers the request with id `id`.
    pub fn with_id(&self, id: &String) -> (r: Response)
        ensures
            r@ == (ResponseView { id: id@, payload: self.payload@ }),
    {
        Response { id: id.clone(), payload: self.payload.duplicate() }
    }

    pub fn duplicate(&self) -> (r: Response)
        ensures
            r@ == self@,
    {
        Response { id: self.id.clone(), payload: self.payload.duplicate() }
    }
}

/// A success response to the request with id `id`.
pub fn success(id: &String, result: String) -> (r: Response)
    ensures
        r@ == (ResponseView { id: id@, payload: PayloadView::Result(result@) }),
{
    Response { id: id.clone(), payload: Payload::Result(result) }
}

/// An internal-error response to the request with id `id`.
pub fn internal_error(id: &String, message: String) -> (r: Response)
    ensures
        r@ == (ResponseView { id: id@, payload: PayloadView::Error(INTERNAL_ERROR as int, message@) }),
{
    Response { id: id.clone(), payload: Payload::Error { code: INTERNAL_ERROR, message } }
}

/// Failures of the HTTP front end, each carrying its message.
pub enum FrontendErrorResponse {
    Anyhow(String),
    BoxError(String),
}

impl FrontendErrorResponse {
    pub open spec fn message_of(&self) -> Seq<char> {
        match self {
            FrontendErrorResponse::Anyhow(m) => m@,
            FrontendErrorResponse::BoxError(m) => m@,
        }
    }

    /// The error envelope that answers the request with id `id`.
    pub fn into_response(self, id: &String) -> (r: Response)
        ensures
            r@ == (ResponseView { id: id@, payload: PayloadView::Error(INTERNAL_ERROR as int, self.message_of()) }),
    {
        match self {
            FrontendErrorResponse::Anyhow(m) => internal_error(id, m),
            FrontendErrorResponse::BoxError(m) => internal_error(id, m),
        }
    }
}

/// The canonical text of the JSON value whose text is `raw`: object keys in
/// order, no insignificant whitespace. Text that is not JSON stays as it is.
pub uninterp spec fn canonical_of(raw: Seq<char>) -> Seq<char>;

/// Relies on serde_json::from_str and serde_json::Value's `to_string`: the
/// value is read and written back compactly, with object keys sorted (the
/// map of serde_json is ordered by key); the text depends on `raw` alone.
#[verifier::external_body]
pub(crate) fn canonical_params(raw: &String) -> (r: String)
    ensures
        r@ == canonical_of(raw@),
{
    match serde_json::from_str::<serde_json::Value>(raw) {
        Ok(v) => v.to_string(),
        Err(_) => raw.clone(),
    }
}

} // verus!
