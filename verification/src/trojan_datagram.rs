//! Trojan UDP over one TLS stream: the frames that wait to be written and the
//! bytes that were read but not yet parsed.

use crate::bytes;
use crate::datagram;
use crate::datagram::{ReceivedDatagram, ReceivedView};
use crate::error;
use crate::error::{Error, ErrorKind, ErrorView};
use crate::flow::DestinationView;
use crate::proxy::Target;
use crate::text;
use crate::transport;
use crate::transport::{TlsTransport, TlsTransportView};
use crate::trojan;
use crate::trojan::TrojanVerifier;
use std::sync::Arc;
use vstd::prelude::*;
use vstd::string::*;

verus! {

pub const MAX_PENDING_FRAMES: usize = 64;

pub const MAX_PENDING_BYTES: usize = 512 * 1024;

pub const MAX_RX_BYTES: usize = 128 * 1024;

pub const TLS_PLAINTEXT_READ_CHUNK: usize = 16 * 1024;

/// What opens Trojan UDP sessions to one endpoint.
pub struct TrojanDatagramProvider {
    credential: TrojanVerifier,
    transport: TlsTransport,
}

#[verifier::ext_equal]
pub struct ProviderView {
    pub credential: Seq<u8>,
    pub transport: TlsTransportView,
}

impl View for TrojanDatagramProvider {
    type V = ProviderView;

    closed spec fn view(&self) -> ProviderView {
        ProviderView { credential: self.credential@, transport: self.transport@ }
    }
}

/// What debug output shows of a provider whose transport is shown so.
pub open spec fn shown(transport: Seq<char>) -> Seq<char> {
    "TrojanDatagramProvider { verifier: TrojanVerifier([REDACTED]), transport: "@ + transport
        + " }"@
}

/// Debug output of a provider whose transport is shown so.
pub fn shown_with(transport: &str) -> (r: String)
    ensures
        r@ == shown(transport@),
{
    text::join3(
        "TrojanDatagramProvider { verifier: TrojanVerifier([REDACTED]), transport: ",
        transport,
        " }",
    )
}

impl TrojanDatagramProvider {
    /// The client settings of the carrier.
    pub closed spec fn spec_config(&self) -> Arc<rustls::ClientConfig> {
        self.transport.spec_config()
    }

    pub fn new(credential: TrojanVerifier, transport: TlsTransport) -> (r: TrojanDatagramProvider)
        ensures
            r@ == (ProviderView { credential: credential@, transport: transport@ }),
            r.spec_config() == transport.spec_config(),
    {
        TrojanDatagramProvider { credential, transport }
    }

    /// The carrier that a session runs over.
    pub fn transport(&self) -> (r: &TlsTransport)
        ensures
            r@ == self@.transport,
            r.spec_config() == self.spec_config(),
    {
        &self.transport
    }

    /// A session over a fresh carrier: the association request waits to be written.
    pub fn open(&self) -> (r: TrojanDatagramExecution)
        ensures
            r.wf(),
            r@ == (SessionView {
                pending: seq![trojan::udp_associate_request(self@.credential)],
                rx: Seq::empty(),
                token: None,
            }),
    {
        let request = trojan::encode_udp_associate_request(&self.credential);
        proof {
            let s = seq![request@];
            assert(s.drop_first() =~= Seq::empty());
            assert(total(s) == request@.len() + total(s.drop_first()));
        }
        let credential = self.credential.as_bytes();
        assert(request@.len() == credential@.len() + 12);
        let mut pending: Vec<PendingFrame> = Vec::new();
        let pending_bytes: usize = request.len();
        pending.push(PendingFrame { bytes: request, offset: 0 });
        let r = TrojanDatagramExecution { pending, pending_bytes, rx: Vec::new(), token: None };
        assert(r@.pending =~= seq![request@]) by {
            assert(request@.skip(0) =~= request@);
        }
        r
    }

    /// What debug output shows of the provider: the whole transport, but nothing of
    /// the verifier.
    pub fn debug_text(&self) -> (r: String)
        requires
            self@.transport.connect_timeout.is_holdable(),
            self@.transport.handshake_timeout.is_holdable(),
        ensures
            exists|carrier: Seq<char>| #[trigger]
                transport::shows_transport(self@.transport, self.spec_config(), carrier) && r@
                    == shown(carrier),
    {
        let carrier = self.transport.debug_text();
        assert(transport::shows_transport(self@.transport, self.spec_config(), carrier@));
        shown_with(carrier.as_str())
    }
}

impl Clone for TrojanDatagramProvider {
    fn clone(&self) -> (r: TrojanDatagramProvider)
        ensures
            r@ == self@,
            r.spec_config() == self.spec_config(),
    {
        TrojanDatagramProvider {
            credential: self.credential.clone(),
            transport: self.transport.clone(),
        }
    }
}

#[derive(Debug)]
struct PendingFrame {
    bytes: Vec<u8>,
    offset: usize,
}

/// A Trojan UDP session without its carrier.
#[derive(Debug)]
pub struct TrojanDatagramExecution {
    pending: Vec<PendingFrame>,
    pending_bytes: usize,
    rx: Vec<u8>,
    token: Option<usize>,
}

#[verifier::ext_equal]
pub struct SessionView {
    /// What is left of each frame that waits to be written.
    pub pending: Seq<Seq<u8>>,
    /// What was read and not yet parsed.
    pub rx: Seq<u8>,
    /// The readiness token under which the carrier is registered.
    pub token: Option<usize>,
}

impl View for TrojanDatagramExecution {
    type V = SessionView;

    closed spec fn view(&self) -> SessionView {
        SessionView {
            pending: self.pending@.map_values(|f: PendingFrame| f.bytes@.skip(f.offset as int)),
            rx: self.rx@,
            token: self.token,
        }
    }
}

/// How many bytes the frames hold together.
pub open spec fn total(frames: Seq<Seq<u8>>) -> nat
    decreases frames.len(),
{
    if frames.len() == 0 {
        0
    } else {
        frames[0].len() + total(frames.drop_first())
    }
}

/// The frames as one run of bytes.
pub open spec fn stream(frames: Seq<Seq<u8>>) -> Seq<u8>
    decreases frames.len(),
{
    if frames.len() == 0 {
        Seq::empty()
    } else {
        frames[0] + stream(frames.drop_first())
    }
}

/// The frames from the first one on that has bytes left.
pub open spec fn from_unwritten(frames: Seq<Seq<u8>>) -> Seq<Seq<u8>>
    decreases frames.len(),
{
    if frames.len() > 0 && frames[0].len() == 0 {
        from_unwritten(frames.drop_first())
    } else {
        frames
    }
}

proof fn lemma_push(frames: Seq<Seq<u8>>, frame: Seq<u8>)
    ensures
        total(frames.push(frame)) == total(frames) + frame.len(),
        stream(frames.push(frame)) == stream(frames) + frame,
    decreases frames.len(),
{
    let all = frames.push(frame);
    if frames.len() == 0 {
        assert(all.drop_first() =~= Seq::empty());
        assert(stream(all.drop_first()) =~= Seq::empty());
        assert(total(all) == frame.len() + total(all.drop_first()));
        assert(stream(all) =~= frame);
        assert(stream(frames) + frame =~= frame);
    } else {
        assert(all.drop_first() =~= frames.drop_first().push(frame));
        lemma_push(frames.drop_first(), frame);
        assert(stream(all) =~= stream(frames) + frame);
    }
}

proof fn lemma_unwritten(frames: Seq<Seq<u8>>)
    ensures
        from_unwritten(frames).len() <= frames.len(),
        total(from_unwritten(frames)) == total(frames),
        stream(from_unwritten(frames)) == stream(frames),
    decreases frames.len(),
{
    if frames.len() > 0 && frames[0].len() == 0 {
        lemma_unwritten(frames.drop_first());
        assert(stream(frames) =~= stream(frames.drop_first()));
    }
}

/// Writing the first bytes of the first frame takes them off the stream.
proof fn lemma_written(frames: Seq<Seq<u8>>, count: nat)
    requires
        frames.len() > 0,
        count <= frames[0].len(),
    ensures
        total(written(frames, count)) == total(frames) - count,
        stream(written(frames, count)) == stream(frames).skip(count as int),
{
    let left = frames[0].skip(count as int);
    let rest = frames.drop_first();
    if left.len() > 0 {
        let t = frames.update(0, left);
        assert(t.drop_first() =~= rest);
        assert(stream(t) =~= stream(frames).skip(count as int));
    } else {
        assert(stream(rest) =~= stream(frames).skip(count as int));
    }
}

/// The frames after `count` bytes of the first one were written; a frame that is
/// written whole leaves.
pub open spec fn written(frames: Seq<Seq<u8>>, count: nat) -> Seq<Seq<u8>> {
    let left = frames[0].skip(count as int);
    if left.len() == 0 {
        frames.drop_first()
    } else {
        frames.update(0, left)
    }
}

pub open spec fn frame_limit_failure() -> ErrorView {
    error::failure(ErrorKind::QuotaExceeded, "Trojan UDP pending frame limit 64 reached"@)
}

pub open spec fn byte_limit_failure() -> ErrorView {
    error::failure(ErrorKind::QuotaExceeded, "Trojan UDP pending byte limit 524288 reached"@)
}

/// Why a frame cannot wait to be written, if it cannot.
pub open spec fn queue_problem(frames: Seq<Seq<u8>>, frame: Seq<u8>) -> Option<ErrorView> {
    if frames.len() >= MAX_PENDING_FRAMES {
        Some(frame_limit_failure())
    } else if total(frames) + frame.len() > MAX_PENDING_BYTES {
        Some(byte_limit_failure())
    } else {
        None
    }
}

/// What to do after a write or a read.
#[derive(Debug)]
pub enum SessionStep {
    /// Try again.
    Again,
    /// Stop for now.
    Stop,
    Fail(Error),
}

#[verifier::ext_equal]
pub enum SessionStepView {
    Again,
    Stop,
    Fail(ErrorView),
}

impl View for SessionStep {
    type V = SessionStepView;

    open spec fn view(&self) -> SessionStepView {
        match self {
            SessionStep::Again => SessionStepView::Again,
            SessionStep::Stop => SessionStepView::Stop,
            SessionStep::Fail(e) => SessionStepView::Fail(e@),
        }
    }
}

pub open spec fn after_error(e: ErrorView) -> SessionStepView {
    if e.kind == ErrorKind::WouldBlock {
        SessionStepView::Stop
    } else if e.kind == ErrorKind::Interrupted {
        SessionStepView::Again
    } else {
        SessionStepView::Fail(e)
    }
}

fn step_after_error(e: Error) -> (r: SessionStep)
    ensures
        r@ == after_error(e@),
{
    if e.kind == ErrorKind::WouldBlock {
        SessionStep::Stop
    } else if e.kind == ErrorKind::Interrupted {
        SessionStep::Again
    } else {
        SessionStep::Fail(e)
    }
}

impl SessionView {
    /// The session with a datagram put behind what waits to be written.
    pub open spec fn queued(self, target: DestinationView, payload: Seq<u8>) -> Result<
        SessionView,
        ErrorView,
    > {
        match trojan::udp_frame(target, payload) {
            Err(e) => Err(e),
            Ok(frame) => match queue_problem(self.pending, frame) {
                Some(e) => Err(e),
                None => Ok(SessionView { pending: self.pending.push(frame), ..self }),
            },
        }
    }

    /// The session after the carrier was offered the first frame, and what to do next.
    pub open spec fn after_write(self, result: Result<nat, ErrorView>) -> (
        SessionView,
        SessionStepView,
    ) {
        match result {
            Ok(n) => if n == 0 {
                (
                    self,
                    SessionStepView::Fail(
                        error::failure(
                            ErrorKind::WriteZero,
                            "framed TLS accepted zero Trojan UDP plaintext bytes"@,
                        ),
                    ),
                )
            } else {
                (
                    SessionView { pending: written(self.pending, n), ..self },
                    SessionStepView::Again,
                )
            },
            Err(e) => (self, after_error(e)),
        }
    }

    /// The session after a read from the carrier, and what to do next.
    pub open spec fn after_read(self, result: Result<nat, ErrorView>, chunk: Seq<u8>) -> (
        SessionView,
        SessionStepView,
    ) {
        match result {
            Ok(n) => (
                SessionView { rx: self.rx + chunk.take(n as int), ..self },
                if n == 0 {
                    SessionStepView::Stop
                } else {
                    SessionStepView::Again
                },
            ),
            Err(e) => (self, after_error(e)),
        }
    }
}

/// What taking a frame out of the read bytes gives, for an output of some length.
pub open spec fn taken(rx: Seq<u8>, output_len: nat) -> Result<Option<ReceivedView>, ErrorView> {
    match trojan::frame_at(rx) {
        Err(e) => Err(e),
        Ok(None) => Ok(None),
        Ok(Some(f)) => if output_len < f.end - f.start {
            Err(
                error::failure(
                    ErrorKind::InvalidInput,
                    "Trojan UDP output buffer is "@ + text::decimal(output_len)
                        + " bytes but frame payload requires "@ + text::decimal(
                        (f.end - f.start) as nat,
                    ),
                ),
            )
        } else {
            Ok(Some(ReceivedView { source: f.source, length: (f.end - f.start) as nat }))
        },
    }
}

/// What is left to be parsed, and the output buffer, after a frame was asked for.
pub open spec fn after_take(rx: Seq<u8>, output: Seq<u8>) -> (Seq<u8>, Seq<u8>) {
    match (trojan::frame_at(rx), taken(rx, output.len())) {
        (Ok(Some(f)), Ok(Some(_))) => (
            rx.skip(f.end as int),
            rx.subrange(f.start as int, f.end as int) + output.skip((f.end - f.start) as int),
        ),
        _ => (rx, output),
    }
}

/// What a reader is told: a carrier that has ended owes a whole frame.
pub open spec fn served(taken: Result<Option<ReceivedView>, ErrorView>, remote_eof: bool) -> Result<
    Option<ReceivedView>,
    ErrorView,
> {
    if taken == Ok::<Option<ReceivedView>, ErrorView>(None) && remote_eof {
        Err(
            error::failure(
                ErrorKind::UnexpectedEof,
                "Trojan UDP TLS carrier closed without another complete frame"@,
            ),
        )
    } else {
        taken
    }
}

pub open spec fn is_received(
    r: Result<Option<ReceivedDatagram>, Error>,
    m: Result<Option<ReceivedView>, ErrorView>,
) -> bool {
    match (r, m) {
        (Ok(Some(d)), Ok(Some(v))) => d@ == v,
        (Ok(None), Ok(None)) => true,
        (Err(e), Err(v)) => e@ == v,
        _ => false,
    }
}

impl TrojanDatagramExecution {
    pub closed spec fn wf(self) -> bool {
        &&& forall|i: int|
            0 <= i < self.pending@.len() ==> (#[trigger] self.pending@[i]).offset
                <= self.pending@[i].bytes@.len()
        &&& self.pending@.len() <= MAX_PENDING_FRAMES
        &&& self.pending_bytes == total(self@.pending)
        &&& self.pending_bytes <= MAX_PENDING_BYTES
        &&& self.rx@.len() <= MAX_RX_BYTES
    }

    /// A session never holds more than its bounds.
    pub proof fn law_session_is_bounded(self)
        requires
            self.wf(),
        ensures
            self@.pending.len() <= MAX_PENDING_FRAMES,
            total(self@.pending) <= MAX_PENDING_BYTES,
            self@.rx.len() <= MAX_RX_BYTES,
    {
    }

    /// Puts a frame behind those that wait to be written.
    pub fn enqueue(&mut self, frame: Vec<u8>) -> (r: Result<(), Error>)
        requires
            old(self).wf(),
        ensures
            final(self).wf(),
            match r {
                Ok(_) => queue_problem(old(self)@.pending, frame@) is None && final(self)@ == (
                SessionView { pending: old(self)@.pending.push(frame@), ..old(self)@ })
                    && stream(final(self)@.pending) == stream(old(self)@.pending) + frame@,
                Err(e) => queue_problem(old(self)@.pending, frame@) == Some(e@) && final(self)@
                    == old(self)@,
            },
    {
        if self.pending.len() >= MAX_PENDING_FRAMES {
            return Err(
                Error::new(
                    ErrorKind::QuotaExceeded,
                    "Trojan UDP pending frame limit 64 reached",
                ),
            );
        }
        if frame.len() > MAX_PENDING_BYTES - self.pending_bytes {
            return Err(
                Error::new(
                    ErrorKind::QuotaExceeded,
                    "Trojan UDP pending byte limit 524288 reached",
                ),
            );
        }
        proof {
            lemma_push(self@.pending, frame@);
        }
        self.pending_bytes = self.pending_bytes + frame.len();
        self.pending.push(PendingFrame { bytes: frame, offset: 0 });
        assert(frame@.skip(0) =~= frame@);
        assert(self@.pending =~= old(self)@.pending.push(frame@));
        Ok(())
    }

    /// Queues a datagram for a target.
    pub fn queue_datagram(&mut self, target: &Target, payload: &[u8]) -> (r: Result<(), Error>)
        requires
            old(self).wf(),
        ensures
            final(self).wf(),
            match r {
                Ok(_) => old(self)@.queued(target@, payload@) == Ok::<SessionView, ErrorView>(
                    final(self)@,
                ) && stream(final(self)@.pending) == stream(old(self)@.pending)
                    + trojan::udp_frame(target@, payload@)->Ok_0,
                Err(e) => final(self)@ == old(self)@ && old(self)@.queued(target@, payload@)
                    == Err::<SessionView, ErrorView>(e@),
            },
    {
        match trojan::encode_udp_frame(target, payload) {
            Ok(frame) => self.enqueue(frame),
            Err(e) => Err(e),
        }
    }

    /// Whether bytes are left to be written; frames without any leave first.
    pub fn has_unwritten(&mut self) -> (r: bool)
        requires
            old(self).wf(),
        ensures
            final(self).wf(),
            final(self)@ == (SessionView {
                pending: from_unwritten(old(self)@.pending),
                ..old(self)@
            }),
            stream(final(self)@.pending) == stream(old(self)@.pending),
            r == (final(self)@.pending.len() > 0),
            r ==> final(self)@.pending[0].len() > 0,
    {
        proof {
            lemma_unwritten(self@.pending);
        }
        while self.pending.len() > 0
            invariant_except_break
                self.wf(),
                from_unwritten(self@.pending) == from_unwritten(old(self)@.pending),
                self@.rx == old(self)@.rx,
                self@.token == old(self)@.token,
            ensures
                self.wf(),
                self@.pending == from_unwritten(old(self)@.pending),
                self@.rx == old(self)@.rx,
                self@.token == old(self)@.token,
                self.pending@.len() > 0 ==> self@.pending[0].len() > 0,
            decreases self.pending@.len(),
        {
            let ghost before = self@.pending;
            assert(before[0] == self.pending@[0].bytes@.skip(self.pending@[0].offset as int));
            if self.pending[0].offset < self.pending[0].bytes.len() {
                break;
            }
            let ghost frames = self.pending@;
            let _frame = self.pending.remove(0);
            assert(self@.pending =~= before.drop_first());
            assert forall|i: int| 0 <= i < self.pending@.len() implies (#[trigger] self.pending@[i]).offset
                <= self.pending@[i].bytes@.len() by {
                assert(self.pending@[i] == frames[i + 1]);
            }
        }
        self.pending.len() > 0
    }

    /// The bytes to be written next.
    pub fn unwritten(&self) -> (r: &[u8])
        requires
            self.wf(),
            self@.pending.len() > 0,
        ensures
            r@ == self@.pending[0],
    {
        let frame = &self.pending[0];
        vstd::slice::slice_subrange(frame.bytes.as_slice(), frame.offset, frame.bytes.len())
    }

    /// What follows an attempt to write the next bytes.
    pub fn after_write(&mut self, result: Result<usize, Error>) -> (r: SessionStep)
        requires
            old(self).wf(),
            old(self)@.pending.len() > 0,
            result matches Ok(n) ==> n <= old(self)@.pending[0].len(),
        ensures
            final(self).wf(),
            (final(self)@, r@) == old(self)@.after_write(datagram::attempt(result)),
            result matches Ok(n) ==> stream(final(self)@.pending) == stream(
                old(self)@.pending,
            ).skip(n as int),
    {
        match result {
            Ok(n) => {
                if n == 0 {
                    return SessionStep::Fail(
                        Error::new(
                            ErrorKind::WriteZero,
                            "framed TLS accepted zero Trojan UDP plaintext bytes",
                        ),
                    );
                }
                let ghost before = self@.pending;
                let ghost frames = self.pending@;
                assert(before[0] == frames[0].bytes@.skip(frames[0].offset as int));
                proof {
                    lemma_written(before, n as nat);
                }
                let whole: usize = self.pending[0].bytes.len();
                let offset: usize = self.pending[0].offset + n;
                self.pending_bytes = self.pending_bytes - n;
                if offset == whole {
                    let _frame = self.pending.remove(0);
                    assert(self@.pending =~= before.drop_first());
                    assert forall|i: int| 0 <= i < self.pending@.len() implies (
                    #[trigger] self.pending@[i]).offset <= self.pending@[i].bytes@.len() by {
                        assert(self.pending@[i] == frames[i + 1]);
                    }
                } else {
                    self.pending[0].offset = offset;
                    assert(self.pending@[0].bytes@.skip(offset as int) =~= before[0].skip(
                        n as int,
                    ));
                    assert(self@.pending =~= before.update(0, before[0].skip(n as int)));
                }
                SessionStep::Again
            },
            Err(e) => step_after_error(e),
        }
    }

    /// How many bytes may be read at once.
    pub fn read_limit(&self) -> (r: Result<usize, Error>)
        requires
            self.wf(),
        ensures
            match r {
                Ok(n) => self@.rx.len() < MAX_RX_BYTES && n == if MAX_RX_BYTES - self@.rx.len()
                    < TLS_PLAINTEXT_READ_CHUNK {
                    MAX_RX_BYTES - self@.rx.len()
                } else {
                    TLS_PLAINTEXT_READ_CHUNK as int
                },
                Err(e) => self@.rx.len() == MAX_RX_BYTES && e@ == error::failure(
                    ErrorKind::InvalidData,
                    "Trojan UDP receive buffer exceeds 131072 bytes"@,
                ),
            },
    {
        if self.rx.len() >= MAX_RX_BYTES {
            return Err(
                Error::new(
                    ErrorKind::InvalidData,
                    "Trojan UDP receive buffer exceeds 131072 bytes",
                ),
            );
        }
        let left: usize = MAX_RX_BYTES - self.rx.len();
        if left < TLS_PLAINTEXT_READ_CHUNK {
            Ok(left)
        } else {
            Ok(TLS_PLAINTEXT_READ_CHUNK)
        }
    }

    /// What follows a read into `chunk`.
    pub fn after_read(&mut self, result: Result<usize, Error>, chunk: &[u8]) -> (r: SessionStep)
        requires
            old(self).wf(),
            result matches Ok(n) ==> n <= chunk@.len() && old(self)@.rx.len() + n <= MAX_RX_BYTES,
        ensures
            final(self).wf(),
            (final(self)@, r@) == old(self)@.after_read(datagram::attempt(result), chunk@),
    {
        match result {
            Ok(n) => {
                if n == 0 {
                    assert(self@.rx =~= self@.rx + chunk@.take(0));
                    return SessionStep::Stop;
                }
                let part = vstd::slice::slice_subrange(chunk, 0, n);
                bytes::push_all(&mut self.rx, part);
                assert(part@ =~= chunk@.take(n as int));
                assert(self@.pending == old(self)@.pending);
                SessionStep::Again
            },
            Err(e) => step_after_error(e),
        }
    }

    /// Takes the first frame out of what was read, if it is there whole.
    pub fn take_frame(&mut self, output: &mut [u8]) -> (r: Result<Option<ReceivedDatagram>, Error>)
        requires
            old(self).wf(),
        ensures
            final(self).wf(),
            is_received(r, taken(old(self)@.rx, old(output)@.len())),
            (final(self)@.rx, final(output)@) == after_take(old(self)@.rx, old(output)@),
            final(self)@ == (SessionView { rx: final(self)@.rx, ..old(self)@ }),
    {
        match trojan::parse_udp_frame(self.rx.as_slice()) {
            Err(e) => Err(e),
            Ok(None) => Ok(None),
            Ok(Some(frame)) => {
                let start: usize = frame.payload.start;
                let length: usize = frame.payload.end - start;
                if output.len() < length {
                    let mut message = "Trojan UDP output buffer is ".to_owned();
                    text::push_decimal(&mut message, output.len() as u64);
                    message.append(" bytes but frame payload requires ");
                    text::push_decimal(&mut message, length as u64);
                    return Err(Error { kind: ErrorKind::InvalidInput, message });
                }
                let ghost first = output@;
                let mut i: usize = 0;
                while i < length
                    invariant
                        i <= length,
                        start + length <= self.rx@.len() <= MAX_RX_BYTES,
                        length <= first.len(),
                        output@.len() == first.len(),
                        output@ == self.rx@.subrange(start as int, start + i) + first.skip(
                            i as int,
                        ),
                    decreases length - i,
                {
                    output[i] = self.rx[start + i];
                    i = i + 1;
                    assert(output@ =~= self.rx@.subrange(start as int, start + i) + first.skip(
                        i as int,
                    ));
                }
                let rest = self.rx.split_off(frame.consumed);
                self.rx = rest;
                assert(self@.pending == old(self)@.pending);
                assert(self@.rx =~= old(self)@.rx.skip(frame.consumed as int));
                Ok(Some(ReceivedDatagram { source: frame.source, length }))
            },
        }
    }

    /// What a receive returns once the carrier has been served: a frame, nothing
    /// yet, or the end of the carrier.
    pub fn receive_served(&mut self, output: &mut [u8], remote_eof: bool) -> (r: Result<
        Option<ReceivedDatagram>,
        Error,
    >)
        requires
            old(self).wf(),
        ensures
            final(self).wf(),
            is_received(r, served(taken(old(self)@.rx, old(output)@.len()), remote_eof)),
            (final(self)@.rx, final(output)@) == after_take(old(self)@.rx, old(output)@),
            final(self)@ == (SessionView { rx: final(self)@.rx, ..old(self)@ }),
    {
        match self.take_frame(output) {
            Err(e) => Err(e),
            Ok(Some(d)) => Ok(Some(d)),
            Ok(None) => if remote_eof {
                Err(
                    Error::new(
                        ErrorKind::UnexpectedEof,
                        "Trojan UDP TLS carrier closed without another complete frame",
                    ),
                )
            } else {
                Ok(None)
            },
        }
    }

    pub fn readiness_source_count(&self) -> (r: usize)
        ensures
            r == 1,
    {
        1
    }

    /// The token under which the carrier may be registered.
    pub fn check_registration(&self, tokens: &[usize]) -> (r: Result<usize, Error>)
        ensures
            match r {
                Ok(t) => tokens@.len() == 1 && self@.token is None && t == tokens@[0],
                Err(e) => if tokens@.len() != 1 {
                    e@ == error::failure(
                        ErrorKind::InvalidInput,
                        "Trojan UDP execution requires exactly one readiness token, got "@
                            + text::decimal(tokens@.len()),
                    )
                } else {
                    self@.token is Some && e@ == error::failure(
                        ErrorKind::AlreadyExists,
                        "Trojan UDP execution is already registered"@,
                    )
                },
            },
    {
        if tokens.len() != 1 {
            let mut message =
                "Trojan UDP execution requires exactly one readiness token, got ".to_owned();
            text::push_decimal(&mut message, tokens.len() as u64);
            return Err(Error { kind: ErrorKind::InvalidInput, message });
        }
        match self.token {
            Some(_) => Err(
                Error::new(
                    ErrorKind::AlreadyExists,
                    "Trojan UDP execution is already registered",
                ),
            ),
            None => Ok(tokens[0]),
        }
    }

    /// The carrier has been registered.
    pub fn registered(&mut self, token: usize)
        requires
            old(self).wf(),
        ensures
            final(self).wf(),
            final(self)@ == (SessionView { token: Some(token), ..old(self)@ }),
    {
        self.token = Some(token);
        assert(self@.pending == old(self)@.pending);
    }

    /// The token to be refreshed, where the carrier is registered.
    pub fn token(&self) -> (r: Option<usize>)
        ensures
            r == self@.token,
    {
        self.token
    }
}

/// A datagram that one side queues for a target comes out at the other side with
/// that target and payload, once its frame has arrived in front of anything else.
pub proof fn law_queued_datagram_arrives(
    target: DestinationView,
    payload: Seq<u8>,
    rest: Seq<u8>,
    output_len: nat,
)
    requires
        trojan::udp_frame(target, payload) is Ok,
        target.port != 0,
        payload.len() <= output_len,
    ensures
        ({
            let rx = trojan::udp_frame(target, payload)->Ok_0 + rest;
            &&& taken(rx, output_len) == Ok::<Option<ReceivedView>, ErrorView>(
                Some(ReceivedView { source: target, length: payload.len() }),
            )
            &&& trojan::frame_at(rx) matches Ok(Some(f)) && rx.subrange(
                f.start as int,
                f.end as int,
            ) == payload && rx.skip(f.end as int) == rest
        }),
{
    trojan::law_written_frame_is_read_back(target, payload, rest);
}

/// A datagram is queued when it can be framed and there is room: fewer than 64 frames wait, and
/// with this one no more than 524288 bytes. Its frame then follows everything that waits.
pub proof fn law_queued_frames_follow_the_others(
    session: SessionView,
    target: DestinationView,
    payload: Seq<u8>,
)
    ensures
        session.queued(target, payload) is Ok <==> (trojan::udp_frame(target, payload)
            matches Ok(f) && session.pending.len() < 64 && total(session.pending) + f.len()
            <= 524288),
        session.queued(target, payload) matches Ok(after) ==> {
            &&& trojan::udp_frame(target, payload) matches Ok(f) && stream(after.pending)
                == stream(session.pending) + f
            &&& after.rx == session.rx
            &&& after.token == session.token
        },
        trojan::udp_frame(target, payload) is Ok ==> (session.queued(target, payload)
            matches Err(e) ==> e.kind == ErrorKind::QuotaExceeded),
{
    if let Ok(frame) = trojan::udp_frame(target, payload) {
        lemma_push(session.pending, frame);
    }
}

/// What the carrier takes leaves the front of what waits, and nothing else does. A carrier that
/// takes nothing has failed; one that would block is waited for, an interrupted one is tried
/// again, and every other error is passed on.
pub proof fn law_written_bytes_leave_the_front(session: SessionView, result: Result<nat, ErrorView>)
    requires
        session.pending.len() > 0,
        result matches Ok(n) ==> n <= session.pending[0].len(),
    ensures
        ({
            let (after, step) = session.after_write(result);
            &&& result matches Ok(n) ==> {
                &&& stream(after.pending) == stream(session.pending).skip(n as int)
                &&& step is Again <==> n > 0
                &&& n == 0 ==> (step matches SessionStepView::Fail(e) && e.kind
                    == ErrorKind::WriteZero)
            }
            &&& result matches Err(e) ==> {
                &&& after == session
                &&& step is Stop <==> e.kind == ErrorKind::WouldBlock
                &&& step is Again <==> e.kind == ErrorKind::Interrupted
                &&& step matches SessionStepView::Fail(f) ==> f == e
            }
            &&& after.rx == session.rx
        }),
{
    if let Ok(n) = result {
        if n == 0 {
            assert(stream(session.pending).skip(0) =~= stream(session.pending));
        } else {
            lemma_written(session.pending, n);
        }
    }
}

/// What was read follows what was read before; reading goes on until there is no more.
pub proof fn law_read_bytes_follow_the_others(
    session: SessionView,
    result: Result<nat, ErrorView>,
    chunk: Seq<u8>,
)
    requires
        result matches Ok(n) ==> n <= chunk.len(),
    ensures
        ({
            let (after, step) = session.after_read(result, chunk);
            &&& result matches Ok(n) ==> {
                &&& after.rx + chunk.skip(n as int) == session.rx + chunk
                &&& step is Again <==> n > 0
                &&& step is Stop <==> n == 0
            }
            &&& result matches Err(e) ==> {
                &&& after.rx == session.rx
                &&& step is Stop <==> e.kind == ErrorKind::WouldBlock
                &&& step is Again <==> e.kind == ErrorKind::Interrupted
                &&& step matches SessionStepView::Fail(f) ==> f == e
            }
            &&& after.pending == session.pending
            &&& after.token == session.token
        }),
{
    if let Ok(n) = result {
        assert(session.rx + chunk.take(n as int) + chunk.skip(n as int) =~= session.rx + chunk);
    }
}

/// A frame is handed out when it is whole and fits: its payload fills the front of the output,
/// and what follows it is kept. Anything else leaves both as they are. A carrier that has ended
/// with no whole frame is an unexpected end.
pub proof fn law_whole_frames_are_handed_out(rx: Seq<u8>, output: Seq<u8>, remote_eof: bool)
    ensures
        ({
            let r = taken(rx, output.len());
            let (left, out) = after_take(rx, output);
            &&& r matches Ok(Some(d)) ==> (trojan::frame_at(rx) matches Ok(Some(f)) && {
                &&& d.source == f.source
                &&& d.length == f.end - f.start <= output.len()
                &&& left == rx.skip(f.end as int)
                &&& out == rx.subrange(f.start as int, f.end as int) + output.skip(
                    d.length as int,
                )
            })
            &&& trojan::frame_at(rx) matches Ok(Some(f)) ==> (r is Ok <==> f.end - f.start
                <= output.len())
            &&& trojan::frame_at(rx) matches Ok(None) ==> r == Ok::<
                Option<ReceivedView>,
                ErrorView,
            >(None)
            &&& trojan::frame_at(rx) matches Err(e) ==> r == Err::<Option<ReceivedView>, ErrorView>(
                e,
            )
            &&& !(r matches Ok(Some(_))) ==> left == rx && out == output
            &&& (r matches Ok(None)) && remote_eof ==> (served(r, remote_eof) matches Err(e)
                && e.kind == ErrorKind::UnexpectedEof)
            &&& !(r matches Ok(None)) || !remote_eof ==> served(r, remote_eof) == r
        }),
{
}

/// Frames of which nothing is left are passed over, and what waits to be written stays.
pub proof fn law_empty_frames_are_passed_over(frames: Seq<Seq<u8>>)
    ensures
        stream(from_unwritten(frames)) == stream(frames),
        from_unwritten(frames).len() > 0 <==> stream(frames).len() > 0,
        from_unwritten(frames).len() > 0 ==> from_unwritten(frames)[0].len() > 0,
    decreases frames.len(),
{
    if frames.len() > 0 && frames[0].len() == 0 {
        law_empty_frames_are_passed_over(frames.drop_first());
        assert(frames[0] + stream(frames.drop_first()) =~= stream(frames.drop_first()));
    }
}

/// At most 131072 bytes are kept to be parsed: no more is read than fits.
pub proof fn law_reads_stay_within_the_buffer(
    session: &TrojanDatagramExecution,
    r: Result<usize, Error>,
)
    requires
        session.wf(),
        call_ensures(TrojanDatagramExecution::read_limit, (session,), r),
    ensures
        r is Ok <==> session@.rx.len() < 131072,
        r matches Ok(n) ==> 0 < n <= 16384 && session@.rx.len() + n <= 131072 && (n == 16384
            || session@.rx.len() + n == 131072),
        r matches Err(e) ==> e@.kind == ErrorKind::InvalidData,
{
}

/// A session is registered once, under one token.
pub proof fn law_session_is_registered_once(
    session: &TrojanDatagramExecution,
    tokens: &[usize],
    r: Result<usize, Error>,
)
    requires
        call_ensures(TrojanDatagramExecution::check_registration, (session, tokens), r),
    ensures
        r is Ok <==> tokens@.len() == 1 && session@.token is None,
        r matches Ok(t) ==> tokens@ == seq![t],
        r matches Err(e) ==> e@.kind == if tokens@.len() == 1 {
            ErrorKind::AlreadyExists
        } else {
            ErrorKind::InvalidInput
        },
{
}

/// A session begins by asking for datagrams with the credential of its endpoint, and has read
/// nothing.
pub proof fn law_session_begins_with_its_request(
    provider: &TrojanDatagramProvider,
    r: TrojanDatagramExecution,
)
    requires
        call_ensures(TrojanDatagramProvider::open, (provider,), r),
    ensures
        stream(r@.pending) == trojan::udp_associate_request(provider@.credential),
        r@.rx.len() == 0,
        r@.token is None,
{
    let frames = r@.pending;
    let request = trojan::udp_associate_request(provider@.credential);
    assert(frames =~= seq![request]);
    assert(frames.drop_first() =~= Seq::empty());
    assert(stream(frames.drop_first()) =~= Seq::<u8>::empty());
    assert(request + Seq::<u8>::empty() =~= request);
}

} // verus!
