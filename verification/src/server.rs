//! The server's owned state.
//!
//! The server holds the one application value shared by every
//! connection.  Listening, accepting and task spawning are transport
//! concerns and live with the host; the host takes the state out with
//! `into_inner`, wraps it for sharing, and drives each connection
//! through the session machine.

use vstd::prelude::*;
use crate::error::Error;
use crate::value::Value;

verus! {

/// What a command handler hands back to the runtime.
pub type Response = Result<Value, Error>;

/// The server: the application state and nothing else.
pub struct Server<T> {
    /// The application state every connection shares.
    pub data: T,
}

impl<T> Server<T> {
    /// A server over the given application state.
    pub fn new(data: T) -> (r: Server<T>)
        ensures
            r.data == data,
    {
        Server { data }
    }

    /// Releases the application state to the host runtime.
    pub fn into_inner(self) -> (r: T)
        ensures
            r == self.data,
    {
        self.data
    }
}

} // verus!
