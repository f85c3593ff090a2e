//! Transport configuration and the decisions of a full-duplex relay.
//!
//! Proxy protocols consume a byte stream during their handshake and then hand the
//! established carrier back to the transport, which owns the relay strategy. The
//! sockets themselves are driven from outside: this module says what to do next.

use crate::error;
use crate::error::{Error, ErrorKind, ErrorView};
use crate::net;
use crate::net::SocketAddr;
use crate::time::Duration;
use std::sync::Arc;
use vstd::prelude::*;
use vstd::string::*;

verus! {

pub const DEFAULT_CONNECT_TIMEOUT_SECS: u64 = 10;

pub const DEFAULT_HANDSHAKE_TIMEOUT_SECS: u64 = 10;

/// How many bytes one read takes at most.
pub const IO_CHUNK: usize = 16 * 1024;

pub const TLS_BUFFER_LIMIT: usize = 64 * 1024;

#[derive(Clone, Copy, Debug, PartialEq, Eq, Structural)]
pub struct TransportCapabilities {
    pub reliable_stream: bool,
    pub datagram: bool,
    pub encrypted: bool,
}

pub open spec fn timeout_failure() -> ErrorView {
    error::failure(ErrorKind::InvalidInput, "transport timeouts must be greater than zero"@)
}

/// A plain TCP carrier to one address.
#[derive(Clone, Copy, Debug, PartialEq, Eq, Structural)]
pub struct TcpTransport {
    address: SocketAddr,
    connect_timeout: Duration,
    handshake_timeout: Duration,
}

#[verifier::ext_equal]
pub struct TcpTransportView {
    pub address: SocketAddr,
    pub connect_timeout: Duration,
    pub handshake_timeout: Duration,
}

impl View for TcpTransport {
    type V = TcpTransportView;

    closed spec fn view(&self) -> TcpTransportView {
        TcpTransportView {
            address: self.address,
            connect_timeout: self.connect_timeout,
            handshake_timeout: self.handshake_timeout,
        }
    }
}

impl TcpTransport {
    pub fn new(address: SocketAddr) -> (r: TcpTransport)
        ensures
            r@ == (TcpTransportView {
                address,
                connect_timeout: Duration::spec_from_secs(10),
                handshake_timeout: Duration::spec_from_secs(10),
            }),
    {
        TcpTransport {
            address,
            connect_timeout: Duration::from_secs(DEFAULT_CONNECT_TIMEOUT_SECS),
            handshake_timeout: Duration::from_secs(DEFAULT_HANDSHAKE_TIMEOUT_SECS),
        }
    }

    pub fn with_timeouts(
        address: SocketAddr,
        connect_timeout: Duration,
        handshake_timeout: Duration,
    ) -> (r: Result<TcpTransport, Error>)
        ensures
            match r {
                Ok(t) => connect_timeout.nanos > 0 && handshake_timeout.nanos > 0 && t@
                    == (TcpTransportView { address, connect_timeout, handshake_timeout }),
                Err(e) => (connect_timeout.nanos == 0 || handshake_timeout.nanos == 0) && e@
                    == timeout_failure(),
            },
    {
        if connect_timeout.is_zero() || handshake_timeout.is_zero() {
            return Err(
                Error::new(
                    ErrorKind::InvalidInput,
                    "transport timeouts must be greater than zero",
                ),
            );
        }
        Ok(TcpTransport { address, connect_timeout, handshake_timeout })
    }

    pub fn address(self) -> (r: SocketAddr)
        ensures
            r == self@.address,
    {
        self.address
    }

    pub fn connect_timeout(self) -> (r: Duration)
        ensures
            r == self@.connect_timeout,
    {
        self.connect_timeout
    }

    pub fn handshake_timeout(self) -> (r: Duration)
        ensures
            r == self@.handshake_timeout,
    {
        self.handshake_timeout
    }

    pub fn capabilities(&self) -> (r: TransportCapabilities)
        ensures
            r == (TransportCapabilities {
                reliable_stream: true,
                datagram: false,
                encrypted: false,
            }),
    {
        TransportCapabilities { reliable_stream: true, datagram: false, encrypted: false }
    }
}

/// The settings of TLS clients: trusted roots, protocol versions, credentials.
#[verifier::external_type_specification]
#[verifier::external_body]
pub struct ExClientConfig(rustls::ClientConfig);

/// Whether `ServerName::try_from` takes the text for a server name: a DNS name or
/// an address.
pub uninterp spec fn is_server_name(name: Seq<char>) -> bool;

/// Calls `rustls::pki_types::ServerName::try_from`, which is given the text alone,
/// and says whether it made a server name of it.
#[verifier::external_body]
pub(crate) fn check_server_name(name: &str) -> (r: bool)
    ensures
        r == is_server_name(name@),
{
    rustls::pki_types::ServerName::try_from(name.to_owned()).is_ok()
}

/// How `std::fmt::Debug` shows the server name that `ServerName::try_from` makes of
/// the text, or the error that it gives.
pub uninterp spec fn shown_server_name(name: Seq<char>) -> Seq<char>;

/// Calls `std::format!` with the `std::fmt::Debug` output of what
/// `rustls::pki_types::ServerName::try_from` makes of the text, which is a function
/// of the text.
#[verifier::external_body]
fn server_name_output(name: &str) -> (r: String)
    ensures
        r@ == shown_server_name(name@),
{
    match rustls::pki_types::ServerName::try_from(name.to_owned()) {
        Ok(server_name) => format!("{:?}", server_name),
        Err(error) => format!("{:?}", error),
    }
}

/// Calls `rustls::ClientConfig::builder_with_provider` with the provider of `ring`,
/// the default protocol versions, the roots of `webpki_roots::TLS_SERVER_ROOTS` and
/// no client credentials. The provider has cipher suites for both versions, so that
/// choosing them does not fail. Nothing is claimed of what the settings hold.
#[verifier::external_body]
fn webpki_client_config() -> (r: Arc<rustls::ClientConfig>)
{
    let roots = rustls::RootCertStore::from_iter(webpki_roots::TLS_SERVER_ROOTS.iter().cloned());
    let provider = Arc::new(rustls::crypto::ring::default_provider());
    let config = rustls::ClientConfig::builder_with_provider(provider)
        .with_safe_default_protocol_versions()
        .unwrap()
        .with_root_certificates(roots)
        .with_no_client_auth();
    Arc::new(config)
}

/// The settings are what a call of `webpki_client_config` gives.
pub closed spec fn are_webpki(config: Arc<rustls::ClientConfig>) -> bool {
    call_ensures(webpki_client_config, (), config)
}

/// Calls `std::format!` with the `std::fmt::Debug` output of client settings.
/// Nothing is claimed of the text: it shows parts of rustls that differ from one
/// process to another.
#[verifier::external_body]
fn config_output(config: &Arc<rustls::ClientConfig>) -> (r: String)
{
    format!("{:?}", config)
}

/// The text is what a call of `config_output` gives for the settings.
pub closed spec fn shows_settings(config: Arc<rustls::ClientConfig>, shown: Seq<char>) -> bool {
    exists|s: String| #[trigger] call_ensures(config_output, (&config,), s) && s@ == shown
}

/// Calls `std::sync::Arc::clone`, which makes another pointer to the same value.
#[verifier::external_body]
pub(crate) fn share<T>(pointer: &Arc<T>) -> (r: Arc<T>)
    ensures
        r == *pointer,
{
    Arc::clone(pointer)
}

/// A verified TLS carrier to one address.
#[derive(Debug)]
pub struct TlsTransport {
    address: SocketAddr,
    server_name: String,
    config: Arc<rustls::ClientConfig>,
    connect_timeout: Duration,
    handshake_timeout: Duration,
}

#[verifier::ext_equal]
pub struct TlsTransportView {
    pub address: SocketAddr,
    pub server_name: Seq<char>,
    pub connect_timeout: Duration,
    pub handshake_timeout: Duration,
}

impl View for TlsTransport {
    type V = TlsTransportView;

    closed spec fn view(&self) -> TlsTransportView {
        TlsTransportView {
            address: self.address,
            server_name: self.server_name@,
            connect_timeout: self.connect_timeout,
            handshake_timeout: self.handshake_timeout,
        }
    }
}

impl Clone for TlsTransport {
    fn clone(&self) -> (r: TlsTransport)
        ensures
            r@ == self@,
            r.spec_config() == self.spec_config(),
    {
        TlsTransport {
            address: self.address,
            server_name: self.server_name.clone(),
            config: share(&self.config),
            connect_timeout: self.connect_timeout,
            handshake_timeout: self.handshake_timeout,
        }
    }
}

/// What debug output shows of a transport whose settings are shown so.
pub open spec fn shown_transport(v: TlsTransportView, config: Seq<char>) -> Seq<char> {
    "TlsTransport { address: "@ + net::socket_text(v.address) + ", server_name: "@
        + shown_server_name(v.server_name) + ", config: "@ + config + ", connect_timeout: "@
        + v.connect_timeout.shown() + ", handshake_timeout: "@ + v.handshake_timeout.shown()
        + " }"@
}

/// The text is debug output of a transport with these settings.
pub open spec fn shows_transport(
    v: TlsTransportView,
    config: Arc<rustls::ClientConfig>,
    shown: Seq<char>,
) -> bool {
    exists|c: Seq<char>| #[trigger]
        shows_settings(config, c) && shown == shown_transport(v, c)
}

pub open spec fn server_name_failure() -> ErrorView {
    error::failure(ErrorKind::InvalidInput, "invalid TLS server name: invalid dns name"@)
}

/// The transport that an address and a server name make, where it is known whether
/// the name is one.
pub open spec fn named_transport(
    address: SocketAddr,
    name: Seq<char>,
    is_name: bool,
    connect_timeout: Duration,
    handshake_timeout: Duration,
) -> Result<TlsTransportView, ErrorView> {
    if connect_timeout.nanos == 0 || handshake_timeout.nanos == 0 {
        Err(timeout_failure())
    } else if !is_name {
        Err(server_name_failure())
    } else {
        Ok(TlsTransportView { address, server_name: name, connect_timeout, handshake_timeout })
    }
}

/// The transport that an address and a server name make.
pub open spec fn tls_transport(
    address: SocketAddr,
    name: Seq<char>,
    connect_timeout: Duration,
    handshake_timeout: Duration,
) -> Result<TlsTransportView, ErrorView> {
    named_transport(address, name, is_server_name(name), connect_timeout, handshake_timeout)
}

/// A returned transport or error is the one that the model gives.
pub open spec fn is_tls_transport(
    r: Result<TlsTransport, Error>,
    m: Result<TlsTransportView, ErrorView>,
) -> bool {
    match (r, m) {
        (Ok(t), Ok(v)) => t@ == v,
        (Err(e), Err(v)) => e@ == v,
        _ => false,
    }
}

impl TlsTransport {
    /// A transport that trusts the public roots.
    pub fn webpki(address: SocketAddr, server_name: &str) -> (r: Result<TlsTransport, Error>)
        ensures
            is_tls_transport(
                r,
                tls_transport(
                    address,
                    server_name@,
                    Duration::spec_from_secs(10),
                    Duration::spec_from_secs(10),
                ),
            ),
            r matches Ok(t) ==> are_webpki(t.spec_config()),
    {
        TlsTransport::with_client_config(address, server_name, webpki_client_config())
    }

    pub fn with_client_config(
        address: SocketAddr,
        server_name: &str,
        config: Arc<rustls::ClientConfig>,
    ) -> (r: Result<TlsTransport, Error>)
        ensures
            is_tls_transport(
                r,
                tls_transport(
                    address,
                    server_name@,
                    Duration::spec_from_secs(10),
                    Duration::spec_from_secs(10),
                ),
            ),
            r matches Ok(t) ==> t.spec_config() == config,
    {
        TlsTransport::with_timeouts(
            address,
            server_name,
            config,
            Duration::from_secs(DEFAULT_CONNECT_TIMEOUT_SECS),
            Duration::from_secs(DEFAULT_HANDSHAKE_TIMEOUT_SECS),
        )
    }

    pub fn with_timeouts(
        address: SocketAddr,
        server_name: &str,
        config: Arc<rustls::ClientConfig>,
        connect_timeout: Duration,
        handshake_timeout: Duration,
    ) -> (r: Result<TlsTransport, Error>)
        ensures
            is_tls_transport(
                r,
                tls_transport(address, server_name@, connect_timeout, handshake_timeout),
            ),
            r matches Ok(t) ==> t.spec_config() == config,
    {
        TlsTransport::with_checked_name(
            address,
            server_name,
            check_server_name(server_name),
            config,
            connect_timeout,
            handshake_timeout,
        )
    }

    /// A transport under a name of which it is known whether it is a server name.
    pub fn with_checked_name(
        address: SocketAddr,
        server_name: &str,
        is_name: bool,
        config: Arc<rustls::ClientConfig>,
        connect_timeout: Duration,
        handshake_timeout: Duration,
    ) -> (r: Result<TlsTransport, Error>)
        ensures
            is_tls_transport(
                r,
                named_transport(address, server_name@, is_name, connect_timeout, handshake_timeout),
            ),
            r matches Ok(t) ==> t.spec_config() == config,
    {
        if connect_timeout.is_zero() || handshake_timeout.is_zero() {
            return Err(
                Error::new(
                    ErrorKind::InvalidInput,
                    "transport timeouts must be greater than zero",
                ),
            );
        }
        if !is_name {
            return Err(
                Error::new(
                    ErrorKind::InvalidInput,
                    "invalid TLS server name: invalid dns name",
                ),
            );
        }
        Ok(
            TlsTransport {
                address,
                server_name: server_name.to_owned(),
                config,
                connect_timeout,
                handshake_timeout,
            },
        )
    }

    pub fn address(&self) -> (r: SocketAddr)
        ensures
            r == self@.address,
    {
        self.address
    }

    /// The name that the server's certificate must bear.
    pub fn server_name(&self) -> (r: &str)
        ensures
            r@ == self@.server_name,
    {
        self.server_name.as_str()
    }

    pub closed spec fn spec_config(&self) -> Arc<rustls::ClientConfig> {
        self.config
    }

    /// Debug output of the transport whose settings are shown so.
    pub fn shown_with(&self, config: &str) -> (r: String)
        requires
            self@.connect_timeout.is_holdable(),
            self@.handshake_timeout.is_holdable(),
        ensures
            r@ == shown_transport(self@, config@),
    {
        let mut out = "TlsTransport { address: ".to_owned();
        out.append(self.address.text().as_str());
        out.append(", server_name: ");
        out.append(server_name_output(self.server_name.as_str()).as_str());
        out.append(", config: ");
        out.append(config);
        out.append(", connect_timeout: ");
        out.append(self.connect_timeout.debug_text().as_str());
        out.append(", handshake_timeout: ");
        out.append(self.handshake_timeout.debug_text().as_str());
        out.append(" }");
        out
    }

    /// What debug output shows of the transport.
    pub fn debug_text(&self) -> (r: String)
        requires
            self@.connect_timeout.is_holdable(),
            self@.handshake_timeout.is_holdable(),
        ensures
            shows_transport(self@, self.spec_config(), r@),
    {
        let config = config_output(&self.config);
        assert(shows_settings(self.config, config@));
        self.shown_with(config.as_str())
    }

    pub fn config(&self) -> (r: &Arc<rustls::ClientConfig>)
        ensures
            *r == self.spec_config(),
    {
        &self.config
    }

    pub fn connect_timeout(&self) -> (r: Duration)
        ensures
            r == self@.connect_timeout,
    {
        self.connect_timeout
    }

    pub fn handshake_timeout(&self) -> (r: Duration)
        ensures
            r == self@.handshake_timeout,
    {
        self.handshake_timeout
    }

    pub fn capabilities(&self) -> (r: TransportCapabilities)
        ensures
            r == (TransportCapabilities {
                reliable_stream: true,
                datagram: false,
                encrypted: true,
            }),
    {
        TransportCapabilities { reliable_stream: true, datagram: false, encrypted: true }
    }
}


/// What a read or write returned.
#[derive(Clone, Copy, Debug, PartialEq, Eq, Structural)]
pub enum IoResult {
    Count(usize),
    Failed(ErrorKind),
}

/// What to do after a read or write in a loop that goes on while it can.
#[derive(Clone, Copy, Debug, PartialEq, Eq, Structural)]
pub enum IoStep {
    Again,
    Stop,
    Fail,
}

/// An interrupted call is made again, one that would block ends the loop, and any
/// other failure is a failure.
pub open spec fn failed_step(kind: ErrorKind) -> IoStep {
    match kind {
        ErrorKind::WouldBlock => IoStep::Stop,
        ErrorKind::Interrupted => IoStep::Again,
        _ => IoStep::Fail,
    }
}

fn after_failure(kind: ErrorKind) -> (r: IoStep)
    ensures
        r == failed_step(kind),
{
    match kind {
        ErrorKind::WouldBlock => IoStep::Stop,
        ErrorKind::Interrupted => IoStep::Again,
        _ => IoStep::Fail,
    }
}

/// What to do after moving TLS records: on while records move, off when none did.
pub open spec fn tls_step(result: IoResult) -> IoStep {
    match result {
        IoResult::Count(n) => if n == 0 {
            IoStep::Stop
        } else {
            IoStep::Again
        },
        IoResult::Failed(kind) => failed_step(kind),
    }
}

/// What is left of bytes that were offered, and how many were taken.
pub open spec fn left(bytes: Seq<u8>, result: IoResult) -> Seq<u8> {
    match result {
        IoResult::Count(n) => bytes.skip(n as int),
        IoResult::Failed(_) => bytes,
    }
}

/// What to do after feeding bytes to the TLS session.
pub open spec fn feed_step(bytes: Seq<u8>, result: IoResult) -> IoStep {
    match result {
        IoResult::Count(n) => if n == 0 || left(bytes, result).len() == 0 {
            IoStep::Stop
        } else {
            IoStep::Again
        },
        IoResult::Failed(kind) => failed_step(kind),
    }
}

/// What to do after writing bytes to the client: one that takes nothing has gone.
pub open spec fn client_write_step(bytes: Seq<u8>, result: IoResult) -> Result<IoStep, ErrorView> {
    match result {
        IoResult::Count(n) => if n == 0 {
            Err(
                error::failure(
                    ErrorKind::WriteZero,
                    "client closed while TLS plaintext remained buffered"@,
                ),
            )
        } else if left(bytes, result).len() == 0 {
            Ok(IoStep::Stop)
        } else {
            Ok(IoStep::Again)
        },
        IoResult::Failed(kind) => Ok(failed_step(kind)),
    }
}

/// What to do after a read that fills a buffer: one that cannot go on now is no failure.
pub open spec fn read_step(result: IoResult) -> IoStep {
    match result {
        IoResult::Count(_) => IoStep::Stop,
        IoResult::Failed(kind) => if failed_step(kind) == IoStep::Fail {
            IoStep::Fail
        } else {
            IoStep::Stop
        },
    }
}

/// Encrypted output is written until nothing more goes out.
pub fn after_tls_write(result: IoResult) -> (r: IoStep)
    ensures
        r == tls_step(result),
{
    match result {
        IoResult::Count(n) => if n == 0 {
            IoStep::Stop
        } else {
            IoStep::Again
        },
        IoResult::Failed(kind) => after_failure(kind),
    }
}

/// Whether the remote end has closed, after one more read.
pub open spec fn eof_after(eof: bool, result: IoResult) -> bool {
    eof || result == IoResult::Count(0)
}

/// Encrypted input is read until nothing more comes in; a read of nothing is the
/// end of the stream.
pub fn after_tls_read(result: IoResult, eof: &mut bool) -> (r: IoStep)
    ensures
        *final(eof) == eof_after(*old(eof), result),
        r == tls_step(result),
{
    match result {
        IoResult::Count(n) => if n == 0 {
            *eof = true;
            IoStep::Stop
        } else {
            IoStep::Again
        },
        IoResult::Failed(kind) => after_failure(kind),
    }
}

/// Bytes on their way to a writer.
#[derive(Debug)]
pub struct Pending {
    bytes: Vec<u8>,
    offset: usize,
}

impl View for Pending {
    type V = Seq<u8>;

    /// The bytes that are still to be written.
    closed spec fn view(&self) -> Seq<u8> {
        self.bytes@.skip(self.offset as int)
    }
}

impl Pending {
    #[verifier::type_invariant]
    spec fn wf(self) -> bool {
        self.offset <= self.bytes@.len()
    }

    pub fn new() -> (r: Pending)
        ensures
            r@ == Seq::<u8>::empty(),
    {
        let r = Pending { bytes: Vec::new(), offset: 0 };
        assert(r@ == Seq::<u8>::empty());
        r
    }

    pub fn is_empty(&self) -> (r: bool)
        ensures
            r == (self@.len() == 0),
    {
        proof {
            use_type_invariant(self);
        }
        self.offset >= self.bytes.len()
    }

    /// The bytes that are still to be written.
    pub fn remaining(&self) -> (r: &[u8])
        ensures
            r@ == self@,
    {
        proof {
            use_type_invariant(self);
        }
        vstd::slice::slice_subrange(self.bytes.as_slice(), self.offset, self.bytes.len())
    }

    /// Takes in what was read, where nothing is waiting.
    pub fn fill(&mut self, chunk: &[u8])
        requires
            old(self)@.len() == 0,
        ensures
            final(self)@ == chunk@,
    {
        let fresh = Pending { bytes: crate::bytes::to_bytes(chunk), offset: 0 };
        assert(fresh@ == chunk@);
        *self = fresh;
    }

    /// The first `count` bytes have been written.
    pub fn advance(&mut self, count: usize)
        requires
            count <= old(self)@.len(),
        ensures
            final(self)@ == old(self)@.skip(count as int),
    {
        proof {
            use_type_invariant(&*self);
        }
        let length: usize = self.bytes.len();
        assert(self.offset + count <= length);
        self.offset = self.offset + count;
        assert(self@ == old(self)@.skip(count as int));
        if self.offset == length {
            *self = Pending::new();
            assert(self@ == old(self)@.skip(count as int));
        }
    }

    /// What to do after an attempt to hand the remaining bytes to the TLS session.
    pub fn after_feed(&mut self, result: IoResult) -> (r: IoStep)
        requires
            result matches IoResult::Count(n) ==> n <= old(self)@.len(),
        ensures
            final(self)@ == left(old(self)@, result),
            r == feed_step(old(self)@, result),
    {
        match result {
            IoResult::Count(n) => {
                self.advance(n);
                if n == 0 || self.is_empty() {
                    IoStep::Stop
                } else {
                    IoStep::Again
                }
            },
            IoResult::Failed(kind) => after_failure(kind),
        }
    }

    /// What to do after an attempt to write the remaining bytes to the client; a
    /// client that takes nothing while bytes are waiting has gone away.
    pub fn after_client_write(&mut self, result: IoResult) -> (r: Result<IoStep, Error>)
        requires
            result matches IoResult::Count(n) ==> n <= old(self)@.len(),
        ensures
            final(self)@ == left(old(self)@, result),
            match r {
                Ok(step) => client_write_step(old(self)@, result) == Ok::<IoStep, ErrorView>(step),
                Err(e) => client_write_step(old(self)@, result) == Err::<IoStep, ErrorView>(e@),
            },
    {
        match result {
            IoResult::Count(n) => {
                self.advance(n);
                if n == 0 {
                    return Err(
                        Error::new(
                            ErrorKind::WriteZero,
                            "client closed while TLS plaintext remained buffered",
                        ),
                    );
                }
                if self.is_empty() {
                    Ok(IoStep::Stop)
                } else {
                    Ok(IoStep::Again)
                }
            },
            IoResult::Failed(kind) => Ok(after_failure(kind)),
        }
    }
}

/// What a socket waits for.
#[derive(Clone, Copy, Debug, PartialEq, Eq, Structural)]
pub struct Interest {
    pub readable: bool,
    pub writable: bool,
}

/// What must be told to the poll registry.
#[derive(Clone, Copy, Debug, PartialEq, Eq, Structural)]
pub enum RegistrationChange {
    Keep,
    Register(Interest),
    Reregister(Interest),
    Deregister,
}

/// What the poll registry knows of a socket.
#[derive(Clone, Copy, Debug, PartialEq, Eq, Structural)]
pub struct Registration {
    pub registered: bool,
    pub readable: bool,
    pub writable: bool,
}

impl Registration {
    pub open spec fn spec_none() -> Registration {
        Registration { registered: false, readable: false, writable: false }
    }

    pub fn none() -> (r: Registration)
        ensures
            r == Registration::spec_none(),
    {
        Registration { registered: false, readable: false, writable: false }
    }

    /// The change that makes the registry know the wanted interest.
    pub open spec fn change(self, wanted: Interest) -> RegistrationChange {
        if !wanted.readable && !wanted.writable {
            if self.registered {
                RegistrationChange::Deregister
            } else {
                RegistrationChange::Keep
            }
        } else if !self.registered {
            RegistrationChange::Register(wanted)
        } else if self.readable != wanted.readable || self.writable != wanted.writable {
            RegistrationChange::Reregister(wanted)
        } else {
            RegistrationChange::Keep
        }
    }

    /// What the registry knows afterwards.
    pub open spec fn changed(self, wanted: Interest) -> Registration {
        if wanted.readable || wanted.writable {
            Registration {
                registered: true,
                readable: wanted.readable,
                writable: wanted.writable,
            }
        } else if self.registered {
            Registration::spec_none()
        } else {
            self
        }
    }

    /// Reconciles the registration with the wanted interest.
    pub fn update(&mut self, wanted: Interest) -> (r: RegistrationChange)
        ensures
            r == old(self).change(wanted),
            *final(self) == old(self).changed(wanted),
    {
        if !wanted.readable && !wanted.writable {
            if self.registered {
                *self = Registration::none();
                return RegistrationChange::Deregister;
            }
            return RegistrationChange::Keep;
        }
        let known = *self;
        *self =
        Registration { registered: true, readable: wanted.readable, writable: wanted.writable };
        if !known.registered {
            RegistrationChange::Register(wanted)
        } else if known.readable != wanted.readable || known.writable != wanted.writable {
            RegistrationChange::Reregister(wanted)
        } else {
            RegistrationChange::Keep
        }
    }
}

/// The readiness of a TLS stream whose plaintext is driven from outside.
#[derive(Clone, Copy, Debug, PartialEq, Eq, Structural)]
pub struct FramedReadiness {
    pub registration: Registration,
    pub remote_eof: bool,
}

/// Where the TLS session stands: whether it would take input and has output.
#[derive(Clone, Copy, Debug, PartialEq, Eq, Structural)]
pub struct TlsWants {
    pub read: bool,
    pub write: bool,
}

/// What the encrypted socket waits for: input until the stream has ended, and room
/// for output while there is any.
pub open spec fn remote_interest(eof: bool, wants: TlsWants) -> Interest {
    Interest { readable: !eof && wants.read, writable: wants.write }
}

impl FramedReadiness {
    /// The session with what it wants told to the registry, and what is told.
    pub open spec fn refreshed(self, wants: TlsWants) -> (FramedReadiness, RegistrationChange) {
        let wanted = remote_interest(self.remote_eof, wants);
        (
            FramedReadiness {
                registration: self.registration.changed(wanted),
                remote_eof: self.remote_eof,
            },
            self.registration.change(wanted),
        )
    }

    /// The same for a session that is not registered yet.
    pub open spec fn registered(self, wants: TlsWants) -> Result<
        (FramedReadiness, RegistrationChange),
        ErrorView,
    > {
        if self.registration.registered {
            Err(
                error::failure(
                    ErrorKind::AlreadyExists,
                    "framed TLS session is already registered"@,
                ),
            )
        } else {
            Ok(self.refreshed(wants))
        }
    }
}

impl FramedReadiness {
    pub fn new() -> (r: FramedReadiness)
        ensures
            r == (FramedReadiness { registration: Registration::spec_none(), remote_eof: false }),
    {
        FramedReadiness { registration: Registration::none(), remote_eof: false }
    }

    /// Registers the encrypted socket, which must not be registered yet.
    pub fn register(&mut self, wants: TlsWants) -> (r: Result<RegistrationChange, Error>)
        ensures
            match r {
                Ok(change) => old(self).registered(wants) == Ok::<
                    (FramedReadiness, RegistrationChange),
                    ErrorView,
                >((*final(self), change)),
                Err(e) => *final(self) == *old(self) && old(self).registered(wants) == Err::<
                    (FramedReadiness, RegistrationChange),
                    ErrorView,
                >(e@),
            },
    {
        if self.registration.registered {
            return Err(
                Error::new(
                    ErrorKind::AlreadyExists,
                    "framed TLS session is already registered",
                ),
            );
        }
        Ok(self.refresh(wants))
    }

    /// Reconciles the interest with the state of the TLS session.
    pub fn refresh(&mut self, wants: TlsWants) -> (r: RegistrationChange)
        ensures
            (*final(self), r) == old(self).refreshed(wants),
    {
        let interest = Interest {
            readable: !self.remote_eof && wants.read,
            writable: wants.write,
        };
        self.registration.update(interest)
    }
}


/// A full-duplex relay between a client and a TLS stream.
///
/// Bytes of the client wait in `upstream` for the TLS session, bytes of the TLS
/// session wait in `downstream` for the client.
#[derive(Debug)]
pub struct TlsRelay {
    pub client_eof: bool,
    pub remote_eof: bool,
    pub close_notify_sent: bool,
    pub client_write_shutdown: bool,
    pub upstream: Pending,
    pub downstream: Pending,
    pub client: Registration,
    pub remote: Registration,
}

#[verifier::ext_equal]
pub struct RelayView {
    pub client_eof: bool,
    pub remote_eof: bool,
    pub close_notify_sent: bool,
    pub client_write_shutdown: bool,
    pub upstream: Seq<u8>,
    pub downstream: Seq<u8>,
    pub client: Registration,
    pub remote: Registration,
}

impl View for TlsRelay {
    type V = RelayView;

    open spec fn view(&self) -> RelayView {
        RelayView {
            client_eof: self.client_eof,
            remote_eof: self.remote_eof,
            close_notify_sent: self.close_notify_sent,
            client_write_shutdown: self.client_write_shutdown,
            upstream: self.upstream@,
            downstream: self.downstream@,
            client: self.client,
            remote: self.remote,
        }
    }
}

/// What must be done to end directions that are over.
#[derive(Clone, Copy, Debug, PartialEq, Eq, Structural)]
pub struct Closing {
    pub shutdown_client: bool,
    pub close_notify: bool,
}

/// What the relay does next.
#[derive(Debug)]
pub enum RelayStep {
    /// Both directions have ended and everything has been delivered.
    Finished,
    /// No socket is left to wait for.
    Stalled(Error),
    /// Tell the registry, then wait for the sockets.
    Wait { client: RegistrationChange, remote: RegistrationChange, interest: RelayInterest },
}

pub enum RelayStepView {
    Finished,
    Stalled(ErrorView),
    Wait { client: RegistrationChange, remote: RegistrationChange, interest: RelayInterest },
}

impl View for RelayStep {
    type V = RelayStepView;

    open spec fn view(&self) -> RelayStepView {
        match self {
            RelayStep::Finished => RelayStepView::Finished,
            RelayStep::Stalled(e) => RelayStepView::Stalled(e@),
            RelayStep::Wait { client, remote, interest } => RelayStepView::Wait {
                client: *client,
                remote: *remote,
                interest: *interest,
            },
        }
    }
}

/// What both sockets wait for.
#[derive(Clone, Copy, Debug, PartialEq, Eq, Structural)]
pub struct RelayInterest {
    pub client: Interest,
    pub remote: Interest,
}

/// What a poll reported of one socket.
#[derive(Clone, Copy, Debug, PartialEq, Eq, Structural)]
pub struct Readiness {
    pub readable: bool,
    pub writable: bool,
    pub closed: bool,
}

impl RelayView {
    /// The client has sent everything and it has been handed on.
    pub open spec fn upstream_done(self) -> bool {
        self.client_eof && self.upstream.len() == 0
    }

    /// The remote has sent everything and it has been handed on.
    pub open spec fn downstream_done(self) -> bool {
        self.remote_eof && self.downstream.len() == 0
    }

    /// The end of the client's stream is passed on to the remote once, and the end
    /// of the remote's stream to the client once; the latter also ends the
    /// client's own direction.
    pub open spec fn closing(self) -> Closing {
        let shutdown = self.downstream_done() && !self.client_write_shutdown;
        Closing {
            shutdown_client: shutdown,
            close_notify: !self.close_notify_sent && (self.upstream_done() || shutdown),
        }
    }

    pub open spec fn closed(self) -> RelayView {
        RelayView {
            client_eof: self.client_eof || self.closing().shutdown_client,
            client_write_shutdown: self.client_write_shutdown || self.closing().shutdown_client,
            close_notify_sent: self.close_notify_sent || self.closing().close_notify,
            ..self
        }
    }

    /// Both directions have ended and nothing is waiting anywhere.
    pub open spec fn is_finished(self, wants: TlsWants) -> bool {
        self.upstream_done() && self.downstream_done() && !wants.write
    }

    /// The client is read while nothing of it is waiting, and written while
    /// something is waiting for it.
    pub open spec fn interest(self, wants: TlsWants) -> RelayInterest {
        RelayInterest {
            client: Interest {
                readable: !self.client_eof && self.upstream.len() == 0,
                writable: self.downstream.len() > 0,
            },
            remote: remote_interest(self.remote_eof, wants),
        }
    }

    /// There is still something to move, and no socket to wait for.
    pub open spec fn stalls(self, wants: TlsWants) -> bool {
        !self.is_finished(wants) && !self.waiting(wants).client.registered && !self.waiting(
            wants,
        ).remote.registered
    }

    /// What the relay does next.
    pub open spec fn step(self, wants: TlsWants) -> RelayStepView {
        if self.is_finished(wants) {
            RelayStepView::Finished
        } else if self.stalls(wants) {
            RelayStepView::Stalled(
                error::failure(
                    ErrorKind::UnexpectedEof,
                    "TLS relay has no remaining I/O interest"@,
                ),
            )
        } else {
            RelayStepView::Wait {
                client: self.client.change(self.interest(wants).client),
                remote: self.remote.change(self.interest(wants).remote),
                interest: self.interest(wants),
            }
        }
    }

    /// The relay after a read from the client.
    pub open spec fn with_client_read(self, result: IoResult, chunk: Seq<u8>) -> RelayView {
        match result {
            IoResult::Count(n) => if n == 0 {
                RelayView { client_eof: true, ..self }
            } else {
                RelayView { upstream: chunk.take(n as int), ..self }
            },
            IoResult::Failed(_) => self,
        }
    }

    /// The relay after a read from the TLS session.
    pub open spec fn with_plaintext_read(self, result: IoResult, chunk: Seq<u8>) -> RelayView {
        match result {
            IoResult::Count(n) => RelayView { downstream: chunk.take(n as int), ..self },
            IoResult::Failed(_) => self,
        }
    }

    /// The relay after it heard of the client's socket.
    pub open spec fn with_client_event(self, event: Readiness) -> RelayView {
        RelayView { client_eof: self.client_eof || event.closed, ..self }
    }

    /// The relay after it heard of the remote socket.
    pub open spec fn with_remote_event(self, event: Readiness) -> RelayView {
        RelayView { remote_eof: self.remote_eof || event.closed, ..self }
    }

    /// The relay with the registry brought up to date.
    pub open spec fn waiting(self, wants: TlsWants) -> RelayView {
        if self.is_finished(wants) {
            self
        } else {
            RelayView {
                client: self.client.changed(self.interest(wants).client),
                remote: self.remote.changed(self.interest(wants).remote),
                ..self
            }
        }
    }
}

impl TlsRelay {
    pub fn new() -> (r: TlsRelay)
        ensures
            r@ == (RelayView {
                client_eof: false,
                remote_eof: false,
                close_notify_sent: false,
                client_write_shutdown: false,
                upstream: Seq::empty(),
                downstream: Seq::empty(),
                client: Registration::spec_none(),
                remote: Registration::spec_none(),
            }),
    {
        TlsRelay {
            client_eof: false,
            remote_eof: false,
            close_notify_sent: false,
            client_write_shutdown: false,
            upstream: Pending::new(),
            downstream: Pending::new(),
            client: Registration::none(),
            remote: Registration::none(),
        }
    }

    /// Decides which directions to end now, after the buffers have been moved on.
    pub fn close_directions(&mut self) -> (r: Closing)
        ensures
            r == old(self)@.closing(),
            final(self)@ == old(self)@.closed(),
    {
        let mut notify = false;
        if self.client_eof && self.upstream.is_empty() && !self.close_notify_sent {
            notify = true;
            self.close_notify_sent = true;
        }
        let mut shutdown = false;
        if self.remote_eof && self.downstream.is_empty() && !self.client_write_shutdown {
            shutdown = true;
            self.client_write_shutdown = true;
            self.client_eof = true;
            if !self.close_notify_sent {
                notify = true;
                self.close_notify_sent = true;
            }
        }
        Closing { shutdown_client: shutdown, close_notify: notify }
    }

    /// Decides what to wait for.
    pub fn next(&mut self, wants: TlsWants) -> (r: RelayStep)
        ensures
            final(self)@ == old(self)@.waiting(wants),
            r@ == old(self)@.step(wants),
    {
        if self.client_eof && self.remote_eof && self.upstream.is_empty()
            && self.downstream.is_empty() && !wants.write {
            return RelayStep::Finished;
        }
        let interest = RelayInterest {
            client: Interest {
                readable: !self.client_eof && self.upstream.is_empty(),
                writable: !self.downstream.is_empty(),
            },
            remote: Interest {
                readable: !self.remote_eof && wants.read,
                writable: wants.write,
            },
        };
        let client = self.client.update(interest.client);
        let remote = self.remote.update(interest.remote);
        if !self.client.registered && !self.remote.registered {
            return RelayStep::Stalled(
                Error::new(ErrorKind::UnexpectedEof, "TLS relay has no remaining I/O interest"),
            );
        }
        RelayStep::Wait { client, remote, interest }
    }

    /// Takes in what a read of the client returned; `chunk` holds what was read.
    pub fn after_client_read(&mut self, result: IoResult, chunk: &[u8]) -> (r: IoStep)
        requires
            old(self)@.upstream.len() == 0,
            result matches IoResult::Count(n) ==> n <= chunk@.len(),
        ensures
            final(self)@ == old(self)@.with_client_read(result, chunk@),
            r == read_step(result),
    {
        match result {
            IoResult::Count(n) => {
                if n == 0 {
                    self.client_eof = true;
                } else {
                    self.upstream.fill(&chunk[0..n]);
                }
                IoStep::Stop
            },
            IoResult::Failed(kind) => match after_failure(kind) {
                IoStep::Fail => IoStep::Fail,
                _ => IoStep::Stop,
            },
        }
    }

    /// Takes in what a read of the TLS session's plaintext returned; a read of
    /// nothing says nothing.
    pub fn after_plaintext_read(&mut self, result: IoResult, chunk: &[u8]) -> (r: IoStep)
        requires
            old(self)@.downstream.len() == 0,
            result matches IoResult::Count(n) ==> n <= chunk@.len(),
        ensures
            final(self)@ == old(self)@.with_plaintext_read(result, chunk@),
            r == read_step(result),
    {
        match result {
            IoResult::Count(n) => {
                self.downstream.fill(&chunk[0..n]);
                IoStep::Stop
            },
            IoResult::Failed(kind) => match after_failure(kind) {
                IoStep::Fail => IoStep::Fail,
                _ => IoStep::Stop,
            },
        }
    }

    /// A socket that reports an error or a closed half has ended.
    pub fn client_event(&mut self, event: Readiness)
        ensures
            final(self)@ == old(self)@.with_client_event(event),
    {
        if event.closed {
            self.client_eof = true;
        }
    }

    pub fn remote_event(&mut self, event: Readiness)
        ensures
            final(self)@ == old(self)@.with_remote_event(event),
    {
        if event.closed {
            self.remote_eof = true;
        }
    }
}

/// What an event lets be done now: only what was waited for.
pub fn allowed(event: Readiness, interest: Interest) -> (r: Interest)
    ensures
        r == (Interest {
            readable: event.readable && interest.readable,
            writable: event.writable && interest.writable,
        }),
{
    Interest {
        readable: event.readable && interest.readable,
        writable: event.writable && interest.writable,
    }
}

/// A finished relay has delivered everything: both streams have ended and no byte
/// waits in either direction, nor inside the TLS session.
pub proof fn law_finished_relay_has_delivered_everything(relay: RelayView, wants: TlsWants)
    requires
        relay.is_finished(wants),
    ensures
        relay.client_eof,
        relay.remote_eof,
        relay.upstream.len() == 0,
        relay.downstream.len() == 0,
        !wants.write,
{
}

/// The end of a stream is passed on at most once in each direction.
pub proof fn law_directions_end_once(relay: RelayView)
    ensures
        relay.closed().closing() == (Closing { shutdown_client: false, close_notify: false }),
        relay.closed().closed() == relay.closed(),
{
}

/// Backpressure: the client is not read while bytes of it are still waiting, and
/// no socket waits to be writable without something to write.
pub proof fn law_interest_follows_the_buffers(relay: RelayView, wants: TlsWants)
    ensures
        relay.interest(wants).client.readable <==> relay.upstream.len() == 0 && !relay.client_eof,
        relay.interest(wants).client.writable <==> relay.downstream.len() > 0,
        relay.interest(wants).remote.writable <==> wants.write,
        relay.interest(wants).remote.readable <==> wants.read && !relay.remote_eof,
{
}

/// Reconciling a registration twice with the same interest changes nothing more.
pub proof fn law_registration_settles(registration: Registration, wanted: Interest)
    requires
        !registration.registered ==> registration == Registration::spec_none(),
    ensures
        registration.changed(wanted).change(wanted) == RegistrationChange::Keep,
        registration.changed(wanted).registered <==> wanted.readable || wanted.writable,
{
}

/// The end of a stream is passed on as soon as nothing of the stream is waiting any
/// more, whether or not the other stream goes on: after the directions have been
/// closed, a client that has ended has been reported to the remote, and the other way
/// round.
pub proof fn law_end_of_stream_is_passed_on(relay: RelayView)
    ensures
        relay.client_eof && relay.upstream.len() == 0 ==> relay.closed().close_notify_sent,
        relay.remote_eof && relay.downstream.len() == 0 ==> relay.closed().client_write_shutdown,
        relay.closed().client_write_shutdown && !relay.client_write_shutdown
            ==> relay.closed().client_eof && relay.closed().close_notify_sent,
{
}

/// Nothing is reported to have ended while bytes of it are waiting, and what is asked
/// for is what has changed: a notice to the remote, or the end of writing to the
/// client. The buffers stay as they are.
pub proof fn law_only_ended_streams_are_closed(relay: RelayView)
    ensures
        relay.closing().close_notify <==> relay.closed().close_notify_sent
            && !relay.close_notify_sent,
        relay.closing().shutdown_client <==> relay.closed().client_write_shutdown
            && !relay.client_write_shutdown,
        relay.closing().close_notify ==> (relay.client_eof && relay.upstream.len() == 0) || (
        relay.remote_eof && relay.downstream.len() == 0),
        relay.closing().shutdown_client ==> relay.remote_eof && relay.downstream.len() == 0,
        relay.close_notify_sent ==> relay.closed().close_notify_sent,
        relay.client_write_shutdown ==> relay.closed().client_write_shutdown,
        relay.closed().client_eof <==> relay.client_eof || relay.closing().shutdown_client,
        relay.closed().remote_eof == relay.remote_eof,
        relay.closed().upstream == relay.upstream,
        relay.closed().downstream == relay.downstream,
{
}

/// What was read is what waits to be written: the bytes that the client sent wait for the
/// remote end, those of the remote end wait for the client, and nothing else changes. The
/// client's stream has ended when it gives no more bytes, or when its socket says so.
pub proof fn law_what_is_read_is_what_waits(
    relay: RelayView,
    result: IoResult,
    chunk: Seq<u8>,
    event: Readiness,
)
    requires
        result matches IoResult::Count(n) ==> n <= chunk.len(),
    ensures
        ({
            let up = relay.with_client_read(result, chunk);
            let down = relay.with_plaintext_read(result, chunk);
            &&& result matches IoResult::Count(n) ==> {
                &&& n > 0 ==> up.upstream + chunk.skip(n as int) == chunk
                &&& n == 0 ==> up.upstream == relay.upstream
                &&& up.client_eof <==> relay.client_eof || n == 0
                &&& down.downstream + chunk.skip(n as int) == chunk
            }
            &&& result is Failed ==> up == relay && down == relay
            &&& up.downstream == relay.downstream && up.remote_eof == relay.remote_eof
            &&& down.upstream == relay.upstream && down.client_eof == relay.client_eof
                && down.remote_eof == relay.remote_eof
        }),
        relay.with_client_event(event).client_eof <==> relay.client_eof || event.closed,
        relay.with_client_event(event).remote_eof == relay.remote_eof,
        relay.with_client_event(event).upstream == relay.upstream,
        relay.with_client_event(event).downstream == relay.downstream,
        relay.with_remote_event(event).remote_eof <==> relay.remote_eof || event.closed,
        relay.with_remote_event(event).client_eof == relay.client_eof,
        relay.with_remote_event(event).upstream == relay.upstream,
        relay.with_remote_event(event).downstream == relay.downstream,
{
    if let IoResult::Count(n) = result {
        assert(chunk.take(n as int) + chunk.skip(n as int) =~= chunk);
    }
}

/// A transfer goes on while something moves and something is left, pauses when the socket
/// would block, is tried again when it was interrupted, and fails on every other error. What
/// was taken leaves the front of what waits, and nothing is lost. A client that takes no byte
/// has closed.
pub proof fn law_transfers_go_on_while_bytes_move(bytes: Seq<u8>, result: IoResult)
    requires
        result matches IoResult::Count(n) ==> n <= bytes.len(),
    ensures
        result matches IoResult::Count(n) ==> {
            &&& bytes.take(n as int) + left(bytes, result) == bytes
            &&& left(bytes, result).len() + n == bytes.len()
            &&& (tls_step(result) == IoStep::Again <==> n > 0)
            &&& (tls_step(result) == IoStep::Stop <==> n == 0)
            &&& (feed_step(bytes, result) == IoStep::Again <==> 0 < n < bytes.len())
            &&& (feed_step(bytes, result) == IoStep::Stop <==> n == 0 || n == bytes.len())
            &&& (client_write_step(bytes, result) is Err <==> n == 0)
            &&& (client_write_step(bytes, result) == Ok::<IoStep, ErrorView>(IoStep::Again) <==> 0
                < n < bytes.len())
            &&& (client_write_step(bytes, result) == Ok::<IoStep, ErrorView>(IoStep::Stop) <==> 0
                < n == bytes.len())
            &&& client_write_step(bytes, result) matches Err(e) ==> e.kind == ErrorKind::WriteZero
            &&& read_step(result) == IoStep::Stop
        },
        result matches IoResult::Failed(kind) ==> {
            let fails = kind != ErrorKind::WouldBlock && kind != ErrorKind::Interrupted;
            &&& left(bytes, result) == bytes
            &&& tls_step(result) == feed_step(bytes, result)
            &&& client_write_step(bytes, result) == Ok::<IoStep, ErrorView>(tls_step(result))
            &&& (tls_step(result) == IoStep::Stop <==> kind == ErrorKind::WouldBlock)
            &&& (tls_step(result) == IoStep::Again <==> kind == ErrorKind::Interrupted)
            &&& (tls_step(result) == IoStep::Fail <==> fails)
            &&& (read_step(result) == IoStep::Fail <==> fails)
            &&& (read_step(result) == IoStep::Stop <==> !fails)
        },
{
    if let IoResult::Count(n) = result {
        assert(bytes.take(n as int) + bytes.skip(n as int) =~= bytes);
    }
}

/// A relay is finished when both ends have ended and all is delivered, and it stalls only when
/// it is not finished and nothing could be heard from any socket.
pub proof fn law_relay_waits_while_it_can_hear(relay: RelayView, wants: TlsWants)
    ensures
        relay.is_finished(wants) <==> relay.client_eof && relay.remote_eof && relay.upstream.len()
            == 0 && relay.downstream.len() == 0 && !wants.write,
        relay.stalls(wants) <==> {
            &&& !relay.is_finished(wants)
            &&& relay.client_eof || relay.upstream.len() > 0
            &&& relay.downstream.len() == 0
            &&& relay.remote_eof || !wants.read
            &&& !wants.write
        },
        relay.step(wants) is Finished <==> relay.is_finished(wants),
        relay.step(wants) is Stalled <==> relay.stalls(wants),
        relay.step(wants) matches RelayStepView::Stalled(e) ==> e.kind == ErrorKind::UnexpectedEof,
        relay.step(wants) matches RelayStepView::Wait { client, remote, interest } ==> {
            &&& interest == relay.interest(wants)
            &&& client == relay.client.change(interest.client)
            &&& remote == relay.remote.change(interest.remote)
        },
        relay.waiting(wants).upstream == relay.upstream,
        relay.waiting(wants).downstream == relay.downstream,
        relay.waiting(wants).client_eof == relay.client_eof,
        relay.waiting(wants).remote_eof == relay.remote_eof,
        relay.waiting(wants).close_notify_sent == relay.close_notify_sent,
        relay.waiting(wants).client_write_shutdown == relay.client_write_shutdown,
{
}

/// What a registry is told brings its record to what is wanted: nothing when it has that
/// already, a registration where there was none, a change where it differs, and a removal
/// where nothing is wanted any more.
pub proof fn law_registry_is_told_what_is_wanted(registration: Registration, wanted: Interest)
    ensures
        ({
            let change = registration.change(wanted);
            let after = registration.changed(wanted);
            let some = wanted.readable || wanted.writable;
            &&& (change is Register <==> some && !registration.registered)
            &&& (change is Deregister <==> !some && registration.registered)
            &&& (change is Reregister <==> some && registration.registered && (
            registration.readable != wanted.readable || registration.writable != wanted.writable))
            &&& change matches RegistrationChange::Register(i) ==> i == wanted
            &&& change matches RegistrationChange::Reregister(i) ==> i == wanted
            &&& after.registered <==> some
            &&& some ==> after.readable == wanted.readable && after.writable == wanted.writable
            &&& change is Deregister ==> !after.readable && !after.writable
            &&& change is Keep ==> after == registration
        }),
{
}

/// Only what happened and is waited for is acted on.
pub proof fn law_only_what_is_waited_for_is_done(event: Readiness, interest: Interest, r: Interest)
    requires
        call_ensures(allowed, (event, interest), r),
    ensures
        r.readable <==> event.readable && interest.readable,
        r.writable <==> event.writable && interest.writable,
{
}

/// A transport over TLS keeps what it was given, and is refused only for a timeout of zero or
/// for a name that no server can have.
pub proof fn law_transport_keeps_what_it_was_given(
    address: SocketAddr,
    name: Seq<char>,
    is_name: bool,
    connect: Duration,
    handshake: Duration,
)
    ensures
        ({
            let t = named_transport(address, name, is_name, connect, handshake);
            &&& t is Ok <==> connect.nanos > 0 && handshake.nanos > 0 && is_name
            &&& t matches Ok(v) ==> v.address == address && v.server_name == name
                && v.connect_timeout == connect && v.handshake_timeout == handshake
            &&& t matches Err(e) ==> e.kind == ErrorKind::InvalidInput && (e == timeout_failure()
                <==> connect.nanos == 0 || handshake.nanos == 0)
        }),
        tls_transport(address, name, connect, handshake) == named_transport(
            address,
            name,
            is_server_name(name),
            connect,
            handshake,
        ),
{
    reveal_strlit("transport timeouts must be greater than zero");
    reveal_strlit("invalid TLS server name: invalid dns name");
    assert("transport timeouts must be greater than zero"@[0] == 't');
    assert("invalid TLS server name: invalid dns name"@[0] == 'i');
    assert(timeout_failure() != server_name_failure());
}

/// A session waits to be written while it has records to write, and to be read while it wants
/// records and the remote end has not closed. It is registered once.
pub proof fn law_session_waits_for_what_it_wants(session: FramedReadiness, wants: TlsWants)
    ensures
        ({
            let (after, change) = session.refreshed(wants);
            let some = wants.write || (wants.read && !session.remote_eof);
            &&& after.remote_eof == session.remote_eof
            &&& after.registration.registered <==> some
            &&& some ==> after.registration.writable == wants.write && after.registration.readable
                == (wants.read && !session.remote_eof)
            &&& !session.registration.registered && some ==> (change
                matches RegistrationChange::Register(i) && i.writable == wants.write && i.readable
                == (wants.read && !session.remote_eof))
            &&& change is Deregister <==> session.registration.registered && !some
        }),
        session.registered(wants) is Ok <==> !session.registration.registered,
        session.registered(wants) matches Ok(r) ==> r == session.refreshed(wants),
        session.registered(wants) matches Err(e) ==> e.kind == ErrorKind::AlreadyExists,
{
}

/// The remote end has closed once a read gave nothing, and stays closed.
pub proof fn law_remote_end_stays_closed(eof: bool, result: IoResult)
    ensures
        eof_after(eof, result) <==> eof || (result matches IoResult::Count(n) && n == 0),
{
}

/// A plain transport keeps what it was given, ten seconds for each step unless told otherwise,
/// and is refused only for a timeout of zero.
pub proof fn law_plain_transport_keeps_what_it_was_given(
    address: SocketAddr,
    connect: Duration,
    handshake: Duration,
    r: Result<TcpTransport, Error>,
    plain: TcpTransport,
)
    requires
        call_ensures(TcpTransport::with_timeouts, (address, connect, handshake), r),
        call_ensures(TcpTransport::new, (address,), plain),
    ensures
        r is Ok <==> connect.nanos > 0 && handshake.nanos > 0,
        r matches Ok(t) ==> t@.address == address && t@.connect_timeout == connect
            && t@.handshake_timeout == handshake,
        r matches Err(e) ==> e@.kind == ErrorKind::InvalidInput,
        plain@.address == address,
        plain@.connect_timeout.nanos == 10_000_000_000,
        plain@.handshake_timeout.nanos == 10_000_000_000,
{
}

} // verus!
