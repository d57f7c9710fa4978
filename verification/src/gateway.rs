//! The gateway's errors and what a client is told of them.

use vstd::prelude::*;

verus! {

/// The gateway service.
#[derive(Debug, Clone, Copy, PartialEq, Eq, Structural)]
pub struct Gateway {}

impl Default for Gateway {
    fn default() -> (g: Self)
        ensures
            g == (Gateway {  }),
    {
        Gateway {  }
    }
}

/// The trace identifier that stands for none.
pub const INVALID_TRACE_ID: u128 = 0;

/// The methods of a request.
#[derive(Clone, Copy, PartialEq, Eq, Structural, Debug)]
pub enum Method {
    Options,
    Get,
    Post,
    Put,
    Delete,
    Head,
    Trace,
    Connect,
    Patch,
    Other,
}

/// What can go wrong in the gateway.
#[derive(Debug, Clone)]
pub enum Error {
    RpcTypes(String),
    Resolver(String),
    Car(String),
    Axum(String),
    Http(String),
    RootCidNotFound,
    CanNotDeriveRpcAddrForMemAddr,
    InvalidRpcAddr,
    /// An error that is answered with a status and a message.
    GatewayError { status_code: u16, message: String, trace_id: u128, method: Option<Method> },
}

/// The body of an answer that reports an error.
#[derive(Debug, Clone)]
pub struct ErrorBody {
    pub code: u16,
    pub success: bool,
    pub message: String,
    /// The trace identifier, where there is one.
    pub trace_id: Option<u128>,
}

/// An answer that reports an error, in parts.
#[derive(Debug, Clone)]
pub struct ResponseParts {
    pub status: u16,
    /// The value of the trace header, where there is a trace identifier.
    pub trace_header: Option<u128>,
    /// The body; none for the answer to a `HEAD` request.
    pub body: Option<ErrorBody>,
}

impl Error {
    /// The error with `m` as the method of the request that it answers.
    /// Only an error that is answered with a status keeps a method; any
    /// other is given back as it is.
    pub fn with_method(self, m: Method) -> (e: Self)
        ensures
            e == match self {
                Error::GatewayError { status_code, message, trace_id, method } => Error::GatewayError {
                    status_code,
                    message,
                    trace_id,
                    method: Some(m),
                },
                other => other,
            },
    {
        match self {
            Error::GatewayError { status_code, message, trace_id, method } => Error::GatewayError {
                status_code,
                message,
                trace_id,
                method: Some(m),
            },
            other => other,
        }
    }

    /// The answer that reports the error. It has the error's status; the
    /// trace identifier, where there is one, in a header and in the body;
    /// and a body with the status, the message and `success` unset, except
    /// for the answer to a `HEAD` request, which has no body. Only an error
    /// that is answered with a status has an answer.
    pub fn into_response(self) -> (r: ResponseParts)
        requires
            self is GatewayError,
        ensures
            r.status == self->status_code,
            r.trace_header == if self->trace_id != INVALID_TRACE_ID {
                Some(self->trace_id)
            } else {
                None
            },
            self->method == Some(Method::Head) ==> r.body is None,
            self->method != Some(Method::Head) ==> (r.body matches Some(b) && b.code
                == self->status_code && !b.success && b.message == self->message && b.trace_id
                == r.trace_header),
    {
        match self {
            Error::GatewayError { status_code, message, trace_id, method } => {
                let trace = if trace_id != INVALID_TRACE_ID {
                    Some(trace_id)
                } else {
                    None
                };
                let head = match method {
                    Some(Method::Head) => true,
                    _ => false,
                };
                if head {
                    ResponseParts { status: status_code, trace_header: trace, body: None }
                } else {
                    ResponseParts {
                        status: status_code,
                        trace_header: trace,
                        body: Some(
                            ErrorBody { code: status_code, success: false, message, trace_id: trace },
                        ),
                    }
                }
            },
            _ => ResponseParts { status: 500, trace_header: None, body: None },
        }
    }
}

} // verus!
