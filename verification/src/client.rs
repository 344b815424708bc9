//! The client of a single node: where the node is, and what to send it.
//!
//! The client holds no connection. Whoever owns the connection sends the
//! lines that the client writes, and reads the replies.

use crate::request::{
    address_of, address_text, get_line, get_line_text, set_line, set_line_text,
};
use vstd::prelude::*;
use vstd::string::*;

verus! {

/// The client of the node at one host and port.
pub struct Client {
    server: String,
    port: u16,
}

impl Client {
    /// The host of the node.
    pub closed spec fn host(&self) -> Seq<char> {
        self.server@
    }

    /// The port of the node.
    pub closed spec fn port_number(&self) -> u16 {
        self.port
    }

    /// A client of the node at `server` and `port`.
    pub fn new(server: &str, port: u16) -> (client: Self)
        ensures
            client.host() == server@,
            client.port_number() == port,
    {
        Self { server: String::from_str(server), port }
    }

    /// The address to connect to: `<host>:<port>`.
    pub fn address(&self) -> (address: String)
        ensures
            address@ == address_text(self.host(), self.port_number()),
    {
        address_of(self.server.as_str(), self.port)
    }

    /// The request that sets `key` to `value`, with `flags` and the expiry
    /// time `exp_time`.
    pub fn set(&self, key: &str, flags: u32, exp_time: u32, value: &str) -> (line: String)
        ensures
            line@ == set_line_text(key@, flags, exp_time, value@),
    {
        set_line(key, flags, exp_time, value)
    }

    /// The request that asks for the value of `key`.
    pub fn get(&self, key: &str) -> (line: String)
        ensures
            line@ == get_line_text(key@),
    {
        get_line(key)
    }
}

} // verus!
