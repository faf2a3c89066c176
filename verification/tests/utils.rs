use libdoh::utils::{verify_remote_server, verify_sock_addr};

// Parsing a socket address and resolving a server are done by std::net in the
// application; these tests hand the library the outcome std gives for each input.

/// Whether `SocketAddr::from_str` accepts the argument, for the inputs below.
fn sock(arg: &str) -> Result<String, String> {
    let parsed = matches!(arg, "127.0.0.1:3000" | "[::1]:8080");
    verify_sock_addr(arg, parsed)
}

/// What `ToSocketAddrs::to_socket_addrs` gives for the inputs below: literal
/// addresses with a port resolve to themselves, the others lack a port.
fn remote(arg: &str) -> Result<String, String> {
    let lookup = match arg {
        "9.9.9.9:53" | "[::1]:53" => Ok(true),
        _ => Err("invalid socket address".to_string()),
    };
    verify_remote_server(arg, lookup)
}

#[test]
fn test_verify_sock_addr_valid_ipv4() {
    assert_eq!(sock("127.0.0.1:3000"), Ok("127.0.0.1:3000".to_string()));
}

#[test]
fn test_verify_sock_addr_valid_ipv6() {
    assert_eq!(sock("[::1]:8080"), Ok("[::1]:8080".to_string()));
}

#[test]
fn test_verify_sock_addr_missing_port() {
    assert!(sock("127.0.0.1").is_err());
}

#[test]
fn test_verify_sock_addr_invalid_ip() {
    assert!(sock("999.999.999.999:3000").is_err());
}

#[test]
fn test_verify_sock_addr_empty_string() {
    assert!(sock("").is_err());
}

#[test]
fn test_verify_sock_addr_hostname_rejected() {
    assert!(sock("localhost:3000").is_err());
}

#[test]
fn test_verify_remote_server_valid_ip_port() {
    assert_eq!(remote("9.9.9.9:53"), Ok("9.9.9.9:53".to_string()));
}

#[test]
fn test_verify_remote_server_valid_ipv6() {
    assert_eq!(remote("[::1]:53"), Ok("[::1]:53".to_string()));
}

#[test]
fn test_verify_remote_server_missing_port() {
    assert!(remote("9.9.9.9").is_err());
}

#[test]
fn test_verify_remote_server_invalid_address() {
    assert!(remote("not-a-real-address").is_err());
}

#[test]
fn test_verify_remote_server_empty_string() {
    assert!(remote("").is_err());
}

#[test]
fn verdict_messages() {
    assert_eq!(
        verify_sock_addr("x", false),
        Err("Could not parse \"x\" as a valid socket address (with port).".to_string())
    );
    assert_eq!(
        verify_remote_server("y", Ok(false)),
        Err("Could not parse \"y\" as a valid remote uri".to_string())
    );
    assert_eq!(verify_remote_server("z", Err("boom".to_string())), Err("boom".to_string()));
}
