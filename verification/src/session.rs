//! Session-level values shared with the application shell: the credential
//! it hands to the remote service's clients, and the task messages its
//! frontend routes.

use vstd::prelude::*;

verus! {

/// Messages the application shell routes between its tasks: nothing yet,
/// or the request to announce a completed connection.
#[derive(Clone, Copy, Debug)]
pub enum Message {
    Noop,
    Connect,
}

/// A user-supplied credential for the remote service, carried verbatim:
/// no prefix is prepended and nothing is rewritten.
pub struct Token {
    inner: String,
}

impl View for Token {
    type V = Seq<char>;

    closed spec fn view(&self) -> Seq<char> {
        self.inner@
    }
}

impl Token {
    /// Wrap a credential string exactly as supplied.
    pub fn new(token: String) -> (t: Token)
        ensures
            t@ == token@,
    {
        Token { inner: token }
    }

    /// The credential, exactly as supplied.
    pub fn as_str(&self) -> (r: &str)
        ensures
            r@ == self@,
    {
        self.inner.as_str()
    }
}

} // verus!
