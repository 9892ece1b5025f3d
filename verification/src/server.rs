//! Typed artifact shapes that downstream subsystems populate by parsing
//! values out of the final configuration: protocol services, bound
//! listeners and throttling budgets.

use vstd::prelude::*;

use crate::dynvalue::IpValue;
use core::time::Duration;

verus! {

/// Declares tokio::net::TcpSocket, the bound socket handle a listener
/// carries; the library only stores the value.
#[verifier::external_type_specification]
#[verifier::external_body]
pub struct ExTcpSocket(tokio::net::TcpSocket);

/// Declares rustls::ServerConfig, the TLS context a server may carry; the
/// library only stores the value.
#[verifier::external_type_specification]
#[verifier::external_body]
pub struct ExServerConfig(rustls::ServerConfig);

/// The closed set of protocols a service can speak.
#[derive(Debug, PartialEq, Eq, Clone, Copy, Structural, Default)]
pub enum ServerProtocol {
    #[default]
    Smtp,
    Lmtp,
    Jmap,
    Imap,
    Http,
    ManageSieve,
}

impl ServerProtocol {
    /// The fixed lowercase name each protocol renders to.
    pub open spec fn name_spec(self) -> Seq<char> {
        match self {
            ServerProtocol::Smtp => "smtp"@,
            ServerProtocol::Lmtp => "lmtp"@,
            ServerProtocol::Jmap => "jmap"@,
            ServerProtocol::Imap => "imap"@,
            ServerProtocol::Http => "http"@,
            ServerProtocol::ManageSieve => "managesieve"@,
        }
    }

    /// Render the protocol's exact lowercase name.
    pub fn name(&self) -> (r: &'static str)
        ensures
            r@ == self.name_spec(),
    {
        match self {
            ServerProtocol::Smtp => "smtp",
            ServerProtocol::Lmtp => "lmtp",
            ServerProtocol::Jmap => "jmap",
            ServerProtocol::Imap => "imap",
            ServerProtocol::Http => "http",
            ServerProtocol::ManageSieve => "managesieve",
        }
    }
}

/// Relies on Duration::clone: `Duration` is `Copy`, so a clone is the same
/// value.
pub assume_specification[ <Duration as Clone>::clone ](d: &Duration) -> (r: Duration)
    ensures
        r == *d,
;

/// A throttling budget: at most `requests` in each `period`. Enforcement is
/// the consumer's business; this type only holds the pair.
#[derive(Debug, Default, PartialEq, Eq, Clone)]
pub struct Rate {
    pub requests: u64,
    pub period: Duration,
}

/// A socket address held as plain values.
#[derive(Debug, PartialEq, Eq, Clone, Copy, Structural)]
pub struct SocketAddrValue {
    pub ip: IpValue,
    pub port: u16,
}

/// One bound network endpoint plus its socket-level tuning.
#[derive(Debug)]
pub struct Listener {
    pub socket: tokio::net::TcpSocket,
    pub addr: SocketAddrValue,
    pub backlog: Option<u32>,
    pub ttl: Option<u32>,
    pub linger: Option<Duration>,
    pub nodelay: bool,
}

/// A named logical protocol service: an id, a hostname, protocol-specific
/// payload, one or more listeners, optional TLS and a connection cap.
#[derive(Debug, Default)]
pub struct Server {
    pub id: String,
    pub internal_id: u16,
    pub hostname: String,
    pub data: String,
    pub protocol: ServerProtocol,
    pub listeners: Vec<Listener>,
    pub tls: Option<rustls::ServerConfig>,
    pub tls_implicit: bool,
    pub max_connections: u64,
}

/// All configured services.
pub struct Servers {
    pub inner: Vec<Server>,
}

} // verus!
