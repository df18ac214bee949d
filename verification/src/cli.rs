use vstd::prelude::*;

verus! {

/// The command line of the server.
pub struct Args {
    /// The directory to serve (`.` by default).
    pub path: String,
    /// The port to listen on; the following ones are tried when it is taken (3000 by default).
    pub port: u16,
    /// Open the browser once the server runs.
    pub open: bool,
    /// The network interface to bind to (`127.0.0.1` by default).
    pub bind: String,
}

} // verus!
