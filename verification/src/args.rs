//! The command-line arguments the server and the interactive client share:
//! an optional address, and a flag for running everything locally.

use vstd::prelude::*;

verus! {

#[derive(Debug)]
pub struct Args {
    address: Option<String>,
    local: bool,
}

impl Args {
    pub closed spec fn spec_address(&self) -> Option<String> {
        self.address
    }

    pub closed spec fn spec_local(&self) -> bool {
        self.local
    }

    pub fn new(address: Option<String>, local: bool) -> (r: Args)
        ensures
            r.spec_address() == address,
            r.spec_local() == local,
    {
        Args { address, local }
    }

    /// The address the server listens on: the given one, or the local
    /// default when none is given or local play is asked for.
    pub fn server_address(&self) -> (r: &str)
        ensures
            self.spec_local() ==> r@ == "127.0.0.1:38271"@,
            !self.spec_local() ==> match self.spec_address() {
                Some(a) => r@ == a@,
                None => r@ == "127.0.0.1:38271"@,
            },
    {
        if self.local {
            "127.0.0.1:38271"
        } else {
            if let Some(address) = self.address.as_ref() {
                address.as_str()
            } else {
                "127.0.0.1:38271"
            }
        }
    }

    /// The address the interactive client dials: the given one, the local
    /// server when local play is asked for, or the public server.
    pub fn client_address(&self) -> (r: &str)
        ensures
            self.spec_local() ==> r@ == "ws://127.0.0.1:38271"@,
            !self.spec_local() ==> match self.spec_address() {
                Some(a) => r@ == a@,
                None => r@ == "ws://hanabi.ragnargrootkoerkamp.nl/websocket/"@,
            },
    {
        if self.local {
            "ws://127.0.0.1:38271"
        } else {
            if let Some(address) = self.address.as_ref() {
                address.as_str()
            } else {
                "ws://hanabi.ragnargrootkoerkamp.nl/websocket/"
            }
        }
    }
}

} // verus!
