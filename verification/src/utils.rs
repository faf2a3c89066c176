//! Checks of the proxy's startup arguments.
use vstd::prelude::*;

verus! {

/// The message for an argument that is not a socket address.
pub open spec fn sock_addr_message(arg: Seq<char>) -> Seq<char> {
    "Could not parse \""@ + arg + "\" as a valid socket address (with port)."@
}

/// The message for an argument that resolves to no address.
pub open spec fn remote_server_message(arg: Seq<char>) -> Seq<char> {
    "Could not parse \""@ + arg + "\" as a valid remote uri"@
}

/// Accepts `arg_val` as a listen address when `std::net::SocketAddr` parses it
/// (`parsed`); otherwise gives the message.
pub fn verify_sock_addr(arg_val: &str, parsed: bool) -> (r: Result<String, String>)
    ensures
        parsed ==> (r matches Ok(s) && s@ == arg_val@),
        !parsed ==> (r matches Err(m) && m@ == sock_addr_message(arg_val@)),
{
    if parsed {
        Ok(arg_val.to_owned())
    } else {
        let mut m = String::from_str("Could not parse \"");
        m.append(arg_val);
        m.append("\" as a valid socket address (with port).");
        Err(m)
    }
}

/// Accepts `arg_val` as the upstream server given the outcome of resolving it:
/// `Ok(found)` tells whether resolution gave an address, `Err` holds the
/// resolution error's message.
pub fn verify_remote_server(arg_val: &str, lookup: Result<bool, String>) -> (r: Result<String, String>)
    ensures
        lookup == Ok::<bool, String>(true) ==> (r matches Ok(s) && s@ == arg_val@),
        lookup == Ok::<bool, String>(false) ==> (r matches Err(m) && m@ == remote_server_message(arg_val@)),
        (lookup matches Err(e) ==> (r matches Err(m) && m@ == e@)),
{
    match lookup {
        Ok(true) => Ok(arg_val.to_owned()),
        Ok(false) => {
            let mut m = String::from_str("Could not parse \"");
            m.append(arg_val);
            m.append("\" as a valid remote uri");
            Err(m)
        },
        Err(e) => Err(e),
    }
}

} // verus!
