//! The envelope types of the observability API. The HTTP routing around
//! them is the caller's; these types fix what every endpoint answers with.

use vstd::prelude::*;

verus! {

/// Every API endpoint answers with this envelope: a success flag, the
/// payload when there is one, and an error message when there is not.
#[derive(Debug)]
pub struct ApiResponse<T> {
    pub success: bool,
    pub data: Option<T>,
    pub error: Option<String>,
}

impl<T> ApiResponse<T> {
    /// A successful envelope carrying a payload.
    pub fn ok(data: T) -> (r: ApiResponse<T>)
        ensures
            r.success,
            r.data == Some(data),
            r.error.is_none(),
    {
        ApiResponse { success: true, data: Some(data), error: None }
    }

    /// A failed envelope carrying a message.
    pub fn err(message: String) -> (r: ApiResponse<T>)
        ensures
            !r.success,
            r.data.is_none(),
            r.error == Some(message),
    {
        ApiResponse { success: false, data: None, error: Some(message) }
    }
}

/// One log line as the API reports it.
#[derive(Debug, Clone)]
pub struct ApiLog {
    pub timestamp: u64,
    pub level: String,
    pub message: String,
}

} // verus!
