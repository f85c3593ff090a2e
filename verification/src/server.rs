//! Supervision of listeners: how many connections there are, what a failed accept
//! leads to, and how the end of a listener is reported.

use crate::error;
use crate::error::{Error, ErrorKind, ErrorView};
use crate::net;
use crate::net::SocketAddr;
use crate::text;
use crate::time::Duration;
use vstd::prelude::*;
use vstd::string::*;

verus! {

pub const ACCEPT_ERROR_RETRY_LIMIT: usize = 8;

pub const ACCEPT_ERROR_BACKOFF_MILLIS: u64 = 100;

pub const MAX_ACTIVE_CONNECTIONS: usize = 256;

/// Counts active connections up to a limit.
#[derive(Debug)]
pub struct ConnectionLimiter {
    active: usize,
    limit: usize,
}

#[verifier::ext_equal]
pub struct LimiterView {
    pub active: nat,
    pub limit: nat,
}

impl View for ConnectionLimiter {
    type V = LimiterView;

    closed spec fn view(&self) -> LimiterView {
        LimiterView { active: self.active as nat, limit: self.limit as nat }
    }
}

impl LimiterView {
    /// The limiter after one more connection asked for a permit, and whether it got one.
    pub open spec fn acquired(self) -> (LimiterView, bool) {
        if self.active < self.limit {
            (LimiterView { active: self.active + 1, ..self }, true)
        } else {
            (self, false)
        }
    }

    /// The limiter after a permit came back.
    pub open spec fn released(self) -> LimiterView {
        LimiterView {
            active: if self.active > 0 {
                (self.active - 1) as nat
            } else {
                0
            },
            ..self
        }
    }
}

/// The right to one connection, to be given back when it ends.
#[derive(Debug)]
pub struct ConnectionPermit {
    number: usize,
}

impl ConnectionLimiter {
    #[verifier::type_invariant]
    spec fn wf(self) -> bool {
        self.active <= self.limit
    }

    pub fn new(limit: usize) -> (r: ConnectionLimiter)
        ensures
            r@ == (LimiterView { active: 0, limit: limit as nat }),
    {
        ConnectionLimiter { active: 0, limit }
    }

    /// How many connections are active; never more than the limit.
    pub fn active(&self) -> (r: usize)
        ensures
            r == self@.active,
            r <= self@.limit,
    {
        proof {
            use_type_invariant(self);
        }
        self.active
    }

    /// A permit for one more connection, below the limit.
    pub fn try_acquire(&mut self) -> (r: Option<ConnectionPermit>)
        ensures
            (final(self)@, r is Some) == old(self)@.acquired(),
    {
        if self.active >= self.limit {
            return None;
        }
        let number: usize = self.active;
        self.active = self.active + 1;
        Some(ConnectionPermit { number })
    }

    /// Takes a permit back.
    pub fn release(&mut self, permit: ConnectionPermit)
        ensures
            final(self)@ == old(self)@.released(),
    {
        proof {
            use_type_invariant(&*self);
        }
        let _number: usize = permit.number;
        if self.active > 0 {
            self.active = self.active - 1;
        }
    }
}

/// What a listener does after a failed accept.
#[derive(Debug)]
pub enum AcceptStep {
    /// Accept again at once.
    Again,
    /// Wait, then accept again; this is the message to be logged.
    Retry { message: String, backoff: Duration },
    /// Give up; this is the message to be logged.
    Stop { message: String },
}

pub enum AcceptStepView {
    Again,
    Retry { message: Seq<char>, backoff: Duration },
    Stop { message: Seq<char> },
}

impl View for AcceptStep {
    type V = AcceptStepView;

    open spec fn view(&self) -> AcceptStepView {
        match self {
            AcceptStep::Again => AcceptStepView::Again,
            AcceptStep::Retry { message, backoff } => AcceptStepView::Retry {
                message: message@,
                backoff: *backoff,
            },
            AcceptStep::Stop { message } => AcceptStepView::Stop { message: message@ },
        }
    }
}

/// The number of failures in a row after one more, and what to do about it.
pub open spec fn after_accept_error(count: nat, e: ErrorView) -> (nat, AcceptStepView) {
    if e.kind == ErrorKind::Interrupted {
        (count, AcceptStepView::Again)
    } else {
        let message = accept_message(count + 1, e.message);
        (
            count + 1,
            if count + 1 < ACCEPT_ERROR_RETRY_LIMIT {
                AcceptStepView::Retry { message, backoff: Duration { nanos: 100_000_000 } }
            } else {
                AcceptStepView::Stop { message }
            },
        )
    }
}

/// Failures to accept in a row.
#[derive(Debug)]
pub struct AcceptErrors {
    consecutive: usize,
}

impl View for AcceptErrors {
    type V = nat;

    closed spec fn view(&self) -> nat {
        self.consecutive as nat
    }
}

pub open spec fn accept_message(count: nat, reason: Seq<char>) -> Seq<char> {
    "commeatus: listener accept error ("@ + text::decimal(count) + "/8): "@ + reason
}

impl AcceptErrors {
    #[verifier::type_invariant]
    spec fn wf(self) -> bool {
        self.consecutive <= ACCEPT_ERROR_RETRY_LIMIT
    }

    pub fn new() -> (r: AcceptErrors)
        ensures
            r@ == 0,
    {
        AcceptErrors { consecutive: 0 }
    }

    /// A connection was accepted.
    pub fn accepted(&mut self)
        ensures
            final(self)@ == 0,
    {
        self.consecutive = 0;
    }

    /// An accept failed. The eighth failure in a row ends the listener.
    pub fn failed(&mut self, error: &Error) -> (r: AcceptStep)
        requires
            old(self)@ < ACCEPT_ERROR_RETRY_LIMIT,
        ensures
            (final(self)@, r@) == after_accept_error(old(self)@, error@),
    {
        if error.kind == ErrorKind::Interrupted {
            return AcceptStep::Again;
        }
        let count: usize = self.consecutive + 1;
        self.consecutive = count;
        let mut message = "commeatus: listener accept error (".to_owned();
        text::push_decimal(&mut message, count as u64);
        message.append("/8): ");
        message.append(error.text());
        if count >= ACCEPT_ERROR_RETRY_LIMIT {
            AcceptStep::Stop { message }
        } else {
            AcceptStep::Retry {
                message,
                backoff: Duration::from_millis(ACCEPT_ERROR_BACKOFF_MILLIS),
            }
        }
    }
}

/// How a listener ended.
#[derive(Debug)]
pub enum ListenerExit {
    Returned(SocketAddr),
    Failed(SocketAddr, Error),
    /// No listener is left that could report.
    AllGone,
}

pub open spec fn exit_failure(exit: ListenerExit) -> ErrorView {
    match exit {
        ListenerExit::Returned(a) => error::failure(
            ErrorKind::Other,
            "listener "@ + net::socket_text(a) + " exited unexpectedly"@,
        ),
        ListenerExit::Failed(a, e) => error::failure(
            e@.kind,
            "listener "@ + net::socket_text(a) + " failed: "@ + e@.message,
        ),
        ListenerExit::AllGone => error::failure(
            ErrorKind::Other,
            "all listener supervisors terminated"@,
        ),
    }
}

/// What the end of the first listener makes of the server: listeners are not
/// supposed to end, so it is a failure either way.
pub fn exit_error(exit: ListenerExit) -> (r: Error)
    ensures
        r@ == exit_failure(exit),
{
    match exit {
        ListenerExit::Returned(a) => {
            let address = a.text();
            error::error3(
                ErrorKind::Other,
                "listener ",
                address.as_str(),
                " exited unexpectedly",
            )
        },
        ListenerExit::Failed(a, e) => {
            let address = a.text();
            let mut message = text::join3("listener ", address.as_str(), " failed: ");
            message.append(e.text());
            Error { kind: e.kind, message }
        },
        ListenerExit::AllGone => Error::new(
            ErrorKind::Other,
            "all listener supervisors terminated",
        ),
    }
}

/// What is logged of a connection that is turned away.
pub fn limit_message(peer: SocketAddr) -> (r: String)
    ensures
        r@ == "commeatus: connection from "@ + net::socket_text(peer)
            + " rejected: active connection limit 256 reached"@,
{
    let address = peer.text();
    text::join3(
        "commeatus: connection from ",
        address.as_str(),
        " rejected: active connection limit 256 reached",
    )
}

/// A connection is let in exactly while fewer are active than may be, and counts until its
/// permit comes back: giving it back undoes taking it.
pub proof fn law_limit_is_kept(limiter: LimiterView)
    requires
        limiter.active <= limiter.limit,
    ensures
        limiter.acquired().1 <==> limiter.active < limiter.limit,
        limiter.acquired().0.active <= limiter.limit,
        limiter.acquired().0.limit == limiter.limit,
        limiter.acquired().1 ==> limiter.acquired().0.active == limiter.active + 1
            && limiter.acquired().0.released() == limiter,
        !limiter.acquired().1 ==> limiter.acquired().0 == limiter,
        limiter.active > 0 ==> limiter.released().acquired() == (limiter, true),
        limiter.released().limit == limiter.limit,
{
}

/// A listener tries again at once after an interruption, after a tenth of a second on any other
/// failure, and gives up on the eighth of them in a row. Each message gives its number and the
/// reason.
pub proof fn law_listener_gives_up_after_eight_failures(count: nat, e: ErrorView)
    requires
        count < 8,
    ensures
        ({
            let (after, step) = after_accept_error(count, e);
            &&& step is Again <==> e.kind == ErrorKind::Interrupted
            &&& step is Again ==> after == count
            &&& !(step is Again) ==> after == count + 1
            &&& step is Stop <==> after == 8
            &&& step matches AcceptStepView::Retry { message, backoff } ==> backoff.nanos
                == 100_000_000 && message == accept_message(after, e.message)
            &&& step matches AcceptStepView::Stop { message } ==> message == accept_message(
                after,
                e.message,
            )
        }),
{
}

/// A listener that failed is reported with the kind of its error, its address and the reason;
/// one that returned, or that is gone, is an error as well.
pub proof fn law_ended_listeners_are_errors(address: SocketAddr, e: Error)
    ensures
        exit_failure(ListenerExit::Failed(address, e)).kind == e@.kind,
        exit_failure(ListenerExit::Failed(address, e)).message == "listener "@ + net::socket_text(
            address,
        ) + " failed: "@ + e@.message,
        exit_failure(ListenerExit::Returned(address)).kind == ErrorKind::Other,
        exit_failure(ListenerExit::Returned(address)).message == "listener "@ + net::socket_text(
            address,
        ) + " exited unexpectedly"@,
        exit_failure(ListenerExit::AllGone).kind == ErrorKind::Other,
{
}

} // verus!
