//! The client-side handle: it holds the server's address; connecting and
//! sending live outside the library.

use vstd::prelude::*;

verus! {

/// A client of the relay: it remembers the server's address and connects
/// once per request.  The connecting and sending live outside the library.
pub struct Client<'a> {
    server_addr: &'a str,
}

impl<'a> View for Client<'a> {
    type V = Seq<char>;

    closed spec fn view(&self) -> Seq<char> {
        self.server_addr@
    }
}

impl<'a> Client<'a> {
    /// Create a new client for the server at `server_addr`.
    pub fn new(server_addr: &'a str) -> (c: Client<'a>)
        ensures
            c@ == server_addr@,
    {
        Client { server_addr }
    }

    /// The address of the server this client sends to.
    pub fn server_addr(&self) -> (r: &str)
        ensures
            r@ == self@,
    {
        self.server_addr
    }
}

} // verus!
