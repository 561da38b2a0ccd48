//! The server-side dispatch adapter: wraps a user-supplied handler and
//! validates its responses before they reach the serializer, so that
//! framing integrity is guaranteed by the adapter rather than trusted to
//! application code.

use crate::frame::LineError;
use crate::text::contains_delimiter;
use vstd::prelude::*;

verus! {

/// The capability application logic supplies, one instance per connection
/// (or one shared across connections, if the application makes it safe to
/// share): handle one request, and report readiness for the next.
pub trait Handler {
    /// Handle one decoded request, producing the response text or a
    /// failure.
    fn call(&self, req: String) -> Result<String, LineError>;

    /// Whether the handler can accept a request now.
    fn poll_ready(&self) -> bool;
}

/// Check a handler's response before it is serialized: a response carrying
/// the delimiter would corrupt the framing of everything after it, so it is
/// rejected here, at the adapter, and nothing reaches the wire.
pub fn validate_response(resp: String) -> (r: Result<String, LineError>)
    ensures
        resp@.contains('\n') ==> r == Err::<String, LineError>(LineError::InvalidResponse),
        !resp@.contains('\n') ==> (r matches Ok(s) && s == resp),
{
    if contains_delimiter(resp.as_str()) {
        Err(LineError::InvalidResponse)
    } else {
        Ok(resp)
    }
}

/// The adapter the pipelined connection driver expects, wrapping the user
/// handler for the lifetime of one connection.
pub struct LineService<T: Handler> {
    handler: T,
}

impl<T: Handler> LineService<T> {
    pub fn new(handler: T) -> LineService<T> {
        LineService { handler }
    }

    /// Pass one decoded request to the handler and validate the response.
    /// Whatever the handler did, a response this returns as `Ok` never
    /// carries the delimiter, so serializing it cannot corrupt framing.
    pub fn call(&self, req: String) -> (r: Result<String, LineError>)
        ensures
            r matches Ok(s) ==> !s@.contains('\n'),
    {
        match self.handler.call(req) {
            Ok(resp) => validate_response(resp),
            Err(e) => Err(e),
        }
    }

    /// The adapter itself queues nothing, so it is always ready: the
    /// one-request-at-a-time discipline is enforced by the connection
    /// driver, not here.
    pub fn poll_ready(&self) -> (r: bool)
        ensures
            r,
    {
        true
    }
}

} // verus!
