//! The RFCOMM server's side of one connection: it answers the L2CAP
//! connection request, the multiplexer's SABM and each data link's, takes
//! the UIH frames of the data link and hands the Stream over when the link
//! disconnects. The same session runs inside the loopback radio and behind
//! a real one.

use crate::bytes;
use crate::error::Error;
use crate::l2cap;
use crate::l2cap::Signal;
use crate::packet;
use crate::rfcomm;
use crate::rfcomm::Control;
use vstd::prelude::*;

verus! {

/// What the session has to say back, and what it has taken whole.
#[derive(Debug, PartialEq, Eq)]
pub struct Response {
    /// Packets for the other end, in order.
    pub answers: Vec<Vec<u8>>,
    /// A Stream that just closed: the DLCI it came on and its bytes.
    pub complete: Option<(u8, Vec<u8>)>,
    /// The other end closed the L2CAP channel: the connection is over.
    pub closed: bool,
}

/// A response, its packets and its Stream sequences.
#[verifier::ext_equal]
pub struct ResponseView {
    pub answers: Seq<Seq<u8>>,
    pub complete: Option<(u8, Seq<u8>)>,
    pub closed: bool,
}

/// A Stream as a data link delivered it, its bytes a sequence.
pub open spec fn stream_view(stream: Option<(u8, Vec<u8>)>) -> Option<(u8, Seq<u8>)> {
    match stream {
        Some((dlci, bytes)) => Some((dlci, bytes@)),
        None => None,
    }
}

/// Packets, each a sequence of bytes.
pub open spec fn packets_view(packets: Seq<Vec<u8>>) -> Seq<Seq<u8>> {
    packets.map_values(|packet: Vec<u8>| packet@)
}

impl View for Response {
    type V = ResponseView;

    open spec fn view(&self) -> ResponseView {
        ResponseView {
            answers: packets_view(self.answers@),
            complete: stream_view(self.complete),
            closed: self.closed,
        }
    }
}

impl ResponseView {
    /// Nothing to say and nothing taken.
    pub open spec fn silent() -> ResponseView {
        ResponseView { answers: Seq::empty(), complete: None, closed: false }
    }
}

impl Default for Response {
    /// Nothing to say and nothing taken.
    fn default() -> (response: Response)
        ensures
            response@ == ResponseView::silent(),
    {
        let response: Response = Response { answers: Vec::new(), complete: None, closed: false };
        proof {
            assert(response@ =~= ResponseView::silent());
        }
        response
    }
}

/// One connection's state on the server.
#[derive(Debug)]
pub struct Session {
    /// The requester's identifier for the RFCOMM channel, once opened.
    remote: Option<u16>,
    multiplexer: bool,
    open: Option<u8>,
    information: Vec<u8>,
}

/// A session's state: the requester's channel once opened, whether the
/// multiplexer is up, the open data link, and what has come on it.
#[verifier::ext_equal]
pub struct SessionView {
    pub remote: Option<u16>,
    pub multiplexer: bool,
    pub open: Option<u8>,
    pub information: Seq<u8>,
}

impl View for Session {
    type V = SessionView;

    closed spec fn view(&self) -> SessionView {
        SessionView {
            remote: self.remote,
            multiplexer: self.multiplexer,
            open: self.open,
            information: self.information@,
        }
    }
}

/// What an RFCOMM frame does to a session: the state it leaves, the control
/// it is answered with, if any, and the Stream it completes, if any.
pub struct Taken {
    pub next: SessionView,
    pub answer: Option<Control>,
    pub complete: Option<(u8, Seq<u8>)>,
}

impl SessionView {
    /// Nobody has connected yet.
    pub open spec fn fresh() -> SessionView {
        SessionView { remote: None, multiplexer: false, open: None, information: Seq::empty() }
    }

    /// What holds of every session: the multiplexer and a data link come only
    /// after the channel, an open data link is one there is and not the
    /// multiplexer's, and only an open data link holds information.
    pub open spec fn wf(self) -> bool {
        &&& self.multiplexer ==> self.remote is Some
        &&& self.open matches Some(dlci) ==> self.remote is Some && 1 <= dlci <= rfcomm::MAX_DLCI
        &&& self.open is None ==> self.information.len() == 0
    }

    /// The answer to a connection request: the channel is open at the first
    /// dynamic identifier where the request is for RFCOMM, and refused
    /// anywhere else.
    pub open spec fn connection_response(identifier: u8, psm: u16, source: u16) -> Signal {
        if psm == l2cap::RFCOMM_PSM {
            Signal::ConnectionResponse {
                identifier,
                destination: l2cap::FIRST_DYNAMIC,
                source,
                result: l2cap::SUCCESS,
            }
        } else {
            Signal::ConnectionResponse {
                identifier,
                destination: 0,
                source,
                result: l2cap::PSM_NOT_SUPPORTED,
            }
        }
    }

    /// The state a signal leaves, and what is said to it.
    pub open spec fn signalled(self, signal: Signal) -> (SessionView, Result<ResponseView, Error>) {
        match signal {
            Signal::ConnectionRequest { identifier, psm, source } => (
                if psm == l2cap::RFCOMM_PSM {
                    SessionView { remote: Some(source), ..self }
                } else {
                    self
                },
                Ok(
                    ResponseView {
                        answers: seq![
                            packet::signal_packet(
                                SessionView::connection_response(identifier, psm, source),
                            ),
                        ],
                        complete: None,
                        closed: false,
                    },
                ),
            ),
            Signal::DisconnectionRequest { identifier, destination, source } => (
                SessionView::fresh(),
                Ok(
                    ResponseView {
                        answers: seq![
                            packet::signal_packet(
                                Signal::DisconnectionResponse { identifier, destination, source },
                            ),
                        ],
                        complete: None,
                        closed: true,
                    },
                ),
            ),
            _ => (self, Err(Error::ResponseNotDue)),
        }
    }

    /// What an RFCOMM frame does. SABM on DLCI 0 starts the multiplexer; SABM
    /// on another opens it where the multiplexer is up and no link is open.
    /// Data on the open link is taken and not answered, DISC closes it and
    /// completes its Stream; DISC on DLCI 0 stops the multiplexer. Any other
    /// command is answered DM, and an answer is not answered.
    pub open spec fn takes(self, frame: rfcomm::FrameView) -> Taken {
        let on_open = self.open == Some(frame.dlci);
        match frame.control {
            Control::Sabm => if frame.dlci == 0 {
                Taken {
                    next: SessionView { multiplexer: true, ..self },
                    answer: Some(Control::Ua),
                    complete: None,
                }
            } else if self.multiplexer && self.open is None {
                Taken {
                    next: SessionView {
                        open: Some(frame.dlci),
                        information: Seq::empty(),
                        ..self
                    },
                    answer: Some(Control::Ua),
                    complete: None,
                }
            } else {
                Taken { next: self, answer: Some(Control::Dm), complete: None }
            },
            Control::Uih => if on_open {
                Taken {
                    next: SessionView { information: self.information + frame.information, ..self },
                    answer: None,
                    complete: None,
                }
            } else {
                Taken { next: self, answer: Some(Control::Dm), complete: None }
            },
            Control::Disc => if on_open {
                Taken {
                    next: SessionView { open: None, information: Seq::empty(), ..self },
                    answer: Some(Control::Ua),
                    complete: Some((frame.dlci, self.information)),
                }
            } else if frame.dlci == 0 {
                Taken {
                    next: SessionView { multiplexer: false, ..self },
                    answer: Some(Control::Ua),
                    complete: None,
                }
            } else {
                Taken { next: self, answer: Some(Control::Dm), complete: None }
            },
            Control::Ua | Control::Dm => Taken { next: self, answer: None, complete: None },
        }
    }

    /// The state an RFCOMM frame leaves, and what is said to it. The answer
    /// goes to the requester's channel, on the frame's own DLCI; where it
    /// cannot be built the frame has still been taken.
    pub open spec fn framed(self, frame: rfcomm::FrameView) -> (
        SessionView,
        Result<ResponseView, Error>,
    ) {
        let taken = self.takes(frame);
        (
            taken.next,
            match taken.answer {
                None => Ok(ResponseView::silent()),
                Some(control) => match self.remote {
                    None => Err(Error::RfcommBeforeChannel),
                    Some(remote) => match packet::rfcomm_packet(
                        remote,
                        frame.dlci,
                        control,
                        Seq::empty(),
                    ) {
                        Err(error) => Err(error),
                        Ok(packet) => Ok(
                            ResponseView {
                                answers: seq![packet],
                                complete: taken.complete,
                                closed: false,
                            },
                        ),
                    },
                },
            },
        )
    }

    /// The state a packet leaves, and what is said to it: a packet that is
    /// not a frame, a frame on a channel nobody opened, and a signal or an
    /// RFCOMM frame that cannot be read are refused and change nothing.
    pub open spec fn handled(self, packet: Seq<u8>) -> (SessionView, Result<ResponseView, Error>) {
        match l2cap::frame_of(packet) {
            Err(error) => (self, Err(error)),
            Ok(outer) => if outer.cid == l2cap::SIGNALLING {
                match l2cap::signal_of(outer.payload) {
                    Err(error) => (self, Err(error)),
                    Ok(signal) => self.signalled(signal),
                }
            } else if outer.cid == l2cap::FIRST_DYNAMIC && self.remote is Some {
                match rfcomm::frame_of(outer.payload) {
                    Err(error) => (self, Err(error)),
                    Ok(frame) => self.framed(frame),
                }
            } else {
                (self, Err(Error::ChannelNotOpen(outer.cid)))
            },
        }
    }
}

impl Default for Session {
    /// A session nobody has connected to yet.
    fn default() -> (session: Session)
        ensures
            session@ == SessionView::fresh(),
    {
        Session::new()
    }
}

impl Session {
    /// A session nobody has connected to yet.
    #[must_use]
    pub fn new() -> (session: Session)
        ensures
            session@ == SessionView::fresh(),
    {
        let session: Session = Session {
            remote: None,
            multiplexer: false,
            open: None,
            information: Vec::new(),
        };
        proof {
            assert(session@ =~= SessionView::fresh());
        }
        session
    }

    /// One packet from the other end, answered. A packet that is not an L2CAP
    /// frame, a frame on a channel nobody opened, or a frame RFCOMM cannot
    /// read is refused.
    pub fn handle(&mut self, packet: &[u8]) -> (response: Result<Response, Error>)
        ensures
            (final(self)@, crate::error::viewed(response)) == old(self)@.handled(packet@),
            old(self)@.wf() ==> final(self)@.wf(),
    {
        proof {
            if self@.wf() {
                law_session_stays_wf(self@, packet@);
            }
        }
        let outer: l2cap::Frame = match l2cap::Frame::decode(packet) {
            Ok(outer) => outer,
            Err(error) => return Err(error),
        };
        if outer.cid == l2cap::SIGNALLING {
            match Signal::decode(outer.payload.as_slice()) {
                Ok(signal) => self.signal(&signal),
                Err(error) => Err(error),
            }
        } else if outer.cid == l2cap::FIRST_DYNAMIC && self.remote.is_some() {
            match rfcomm::Frame::decode(outer.payload.as_slice()) {
                Ok(frame) => self.rfcomm(&frame),
                Err(error) => Err(error),
            }
        } else {
            Err(Error::ChannelNotOpen(outer.cid))
        }
    }

    fn signal(&mut self, signal: &Signal) -> (response: Result<Response, Error>)
        ensures
            (final(self)@, crate::error::viewed(response)) == old(self)@.signalled(*signal),
    {
        let mut closed: bool = false;
        let answer: Signal = match *signal {
            Signal::ConnectionRequest { identifier, psm, source } => {
                let listening: bool = psm == l2cap::RFCOMM_PSM;
                if listening {
                    self.remote = Some(source);
                }
                Signal::ConnectionResponse {
                    identifier,
                    destination: if listening {
                        l2cap::FIRST_DYNAMIC
                    } else {
                        0
                    },
                    source,
                    result: if listening {
                        l2cap::SUCCESS
                    } else {
                        l2cap::PSM_NOT_SUPPORTED
                    },
                }
            },
            Signal::DisconnectionRequest { identifier, destination, source } => {
                *self = Session::new();
                closed = true;
                Signal::DisconnectionResponse { identifier, destination, source }
            },
            Signal::ConnectionResponse { .. } | Signal::DisconnectionResponse { .. } => {
                return Err(Error::ResponseNotDue);
            },
        };
        let response: Response = Response {
            answers: vec![packet::of_signal(&answer)],
            complete: None,
            closed,
        };
        proof {
            assert(response@.answers =~= seq![packet::signal_packet(answer)]);
        }
        Ok(response)
    }

    fn rfcomm(&mut self, frame: &rfcomm::Frame) -> (response: Result<Response, Error>)
        ensures
            (final(self)@, crate::error::viewed(response)) == old(self)@.framed(frame@),
    {
        let mut response: Response = Response::default();
        let on_open: bool = match self.open {
            Some(dlci) => dlci == frame.dlci,
            None => false,
        };
        let answer: Control = match frame.control {
            Control::Sabm => if frame.dlci == 0 {
                self.multiplexer = true;
                Control::Ua
            } else if self.multiplexer && self.open.is_none() {
                self.open = Some(frame.dlci);
                self.information.clear();
                Control::Ua
            } else {
                Control::Dm
            },
            Control::Uih => if on_open {
                bytes::push_all(&mut self.information, frame.information.as_slice());
                return Ok(response);
            } else {
                Control::Dm
            },
            Control::Disc => if on_open {
                self.open = None;
                let mut information: Vec<u8> = Vec::new();
                std::mem::swap(&mut self.information, &mut information);
                response.complete = Some((frame.dlci, information));
                Control::Ua
            } else if frame.dlci == 0 {
                self.multiplexer = false;
                Control::Ua
            } else {
                Control::Dm
            },
            Control::Ua | Control::Dm => return Ok(response),
        };
        let remote: u16 = match self.remote {
            Some(remote) => remote,
            None => return Err(Error::RfcommBeforeChannel),
        };
        let none: Vec<u8> = Vec::new();
        let packet: Vec<u8> = match packet::of_rfcomm(remote, frame.dlci, answer, none.as_slice()) {
            Ok(packet) => packet,
            Err(error) => return Err(error),
        };
        response.answers.push(packet);
        proof {
            assert(response@.answers =~= seq![packet@]);
        }
        Ok(response)
    }
}

/// What holds of every session holds after any packet.
pub proof fn law_session_stays_wf(session: SessionView, packet: Seq<u8>)
    requires
        session.wf(),
    ensures
        session.handled(packet).0.wf(),
        SessionView::fresh().wf(),
{
}

/// A signal in its packet is handled as the signal it is.
pub(crate) proof fn lemma_handles_signal(session: SessionView, signal: Signal)
    ensures
        session.handled(packet::signal_packet(signal)) == session.signalled(signal),
{
    packet::law_signal_packet_reads_back(signal);
}

/// An RFCOMM frame in its packet is handled as the frame it is, once the
/// channel is open.
pub(crate) proof fn lemma_handles_frame(
    session: SessionView,
    dlci: u8,
    control: Control,
    information: Seq<u8>,
)
    requires
        session.remote is Some,
        dlci <= rfcomm::MAX_DLCI,
        information.len() <= rfcomm::MAX_FRAME,
    ensures
        packet::rfcomm_packet(l2cap::FIRST_DYNAMIC, dlci, control, information) is Ok,
        session.handled(
            packet::rfcomm_packet(l2cap::FIRST_DYNAMIC, dlci, control, information)->Ok_0,
        ) == session.framed(rfcomm::FrameView { dlci, control, information }),
{
    packet::law_rfcomm_packet_reads_back(l2cap::FIRST_DYNAMIC, dlci, control, information);
}

/// The packet of an RFCOMM frame to the server's channel.
pub open spec fn to_server(dlci: u8, control: Control, information: Seq<u8>) -> Seq<u8> {
    packet::rfcomm_packet(l2cap::FIRST_DYNAMIC, dlci, control, information)->Ok_0
}

/// The response that is one answer of `control` on `dlci`, to channel `remote`.
pub open spec fn answered_with(
    remote: u16,
    dlci: u8,
    control: Control,
    complete: Option<(u8, Seq<u8>)>,
) -> Result<ResponseView, Error> {
    Ok(
        ResponseView {
            answers: seq![packet::rfcomm_packet(remote, dlci, control, Seq::empty())->Ok_0],
            complete,
            closed: false,
        },
    )
}

/// Pieces put together, in order.
pub open spec fn joined(pieces: Seq<Seq<u8>>) -> Seq<u8>
    decreases pieces.len(),
{
    if pieces.len() == 0 {
        Seq::empty()
    } else {
        joined(pieces.drop_last()) + pieces.last()
    }
}

impl SessionView {
    /// The state after several packets.
    pub open spec fn after(self, packets: Seq<Seq<u8>>) -> SessionView
        decreases packets.len(),
    {
        if packets.len() == 0 {
            self
        } else {
            self.after(packets.drop_last()).handled(packets.last()).0
        }
    }
}

/// Data on the open link is appended to its Stream and is not acknowledged.
pub proof fn law_data_is_taken_and_not_acknowledged(
    session: SessionView,
    dlci: u8,
    information: Seq<u8>,
)
    requires
        session.wf(),
        session.open == Some(dlci),
        information.len() <= rfcomm::MAX_FRAME,
    ensures
        session.handled(to_server(dlci, Control::Uih, information)) == (
            SessionView { information: session.information + information, ..session },
            Ok::<ResponseView, Error>(ResponseView::silent()),
        ),
{
    lemma_handles_frame(session, dlci, Control::Uih, information);
}

/// A Stream is the information between SABM and DISC: once the multiplexer is
/// up and no link is open, SABM on a data link is answered UA, and after any
/// data frames on it DISC is answered UA and completes the link's Stream with
/// their information in order, nothing before it and nothing after.
pub proof fn law_stream_is_the_information_between_sabm_and_disc(
    session: SessionView,
    dlci: u8,
    pieces: Seq<Seq<u8>>,
)
    requires
        session.wf(),
        session.multiplexer,
        session.open is None,
        session.remote != Some(0u16),
        1 <= dlci <= rfcomm::MAX_DLCI,
        forall|i: int| 0 <= i < pieces.len() ==> (#[trigger] pieces[i]).len() <= rfcomm::MAX_FRAME,
    ensures
        ({
            let remote = session.remote->0;
            let opened = session.handled(to_server(dlci, Control::Sabm, Seq::empty()));
            let data = pieces.map_values(|piece: Seq<u8>| to_server(dlci, Control::Uih, piece));
            let loaded = opened.0.after(data);
            let closed = loaded.handled(to_server(dlci, Control::Disc, Seq::empty()));
            &&& opened.1 == answered_with(remote, dlci, Control::Ua, None)
            &&& loaded == SessionView { open: Some(dlci), information: joined(pieces), ..session }
            &&& closed.1 == answered_with(
                remote,
                dlci,
                Control::Ua,
                Some((dlci, joined(pieces))),
            )
            &&& closed.0 == session
        }),
{
    let opened = SessionView { open: Some(dlci), information: Seq::empty(), ..session };
    let loaded = SessionView { information: joined(pieces), ..opened };
    lemma_handles_frame(session, dlci, Control::Sabm, Seq::empty());
    lemma_data_run(opened, dlci, pieces);
    assert(opened.information + joined(pieces) =~= joined(pieces));
    lemma_handles_frame(loaded, dlci, Control::Disc, Seq::empty());
    assert(session.information =~= Seq::empty());
}

/// Data frames on the open link leave it open, with their information put
/// after what was there.
pub(crate) proof fn lemma_data_run(session: SessionView, dlci: u8, pieces: Seq<Seq<u8>>)
    requires
        session.wf(),
        session.open == Some(dlci),
        forall|i: int| 0 <= i < pieces.len() ==> (#[trigger] pieces[i]).len() <= rfcomm::MAX_FRAME,
    ensures
        session.after(
            pieces.map_values(|piece: Seq<u8>| to_server(dlci, Control::Uih, piece)),
        ) == (SessionView { information: session.information + joined(pieces), ..session }),
    decreases pieces.len(),
{
    let sent = |piece: Seq<u8>| to_server(dlci, Control::Uih, piece);
    let data = pieces.map_values(sent);
    if pieces.len() == 0 {
        assert(session.information + joined(pieces) =~= session.information);
    } else {
        let shorter = pieces.drop_last();
        assert forall|i: int| 0 <= i < shorter.len() implies (#[trigger] shorter[i]).len()
            <= rfcomm::MAX_FRAME by {
            assert(shorter[i] == pieces[i]);
        }
        lemma_data_run(session, dlci, shorter);
        assert(data.drop_last() =~= shorter.map_values(sent));
        assert(data.last() == to_server(dlci, Control::Uih, pieces.last()));
        let before = SessionView { information: session.information + joined(shorter), ..session };
        assert(pieces[pieces.len() - 1].len() <= rfcomm::MAX_FRAME);
        law_data_is_taken_and_not_acknowledged(before, dlci, pieces.last());
        assert(session.information + joined(shorter) + pieces.last() =~= session.information
            + joined(pieces));
    }
}

/// A refused packet changes nothing, unless the requester named the null
/// channel as its own.
pub proof fn law_refused_packet_changes_nothing(session: SessionView, packet: Seq<u8>)
    requires
        session.wf(),
        session.remote != Some(0u16),
        session.handled(packet).1 is Err,
    ensures
        session.handled(packet).0 == session,
{
}

/// What was not opened is answered DM and changes nothing: SABM while the
/// multiplexer is down or another link is open, and data or DISC on a link
/// that is not open.
pub proof fn law_what_was_not_opened_is_answered_dm(
    session: SessionView,
    dlci: u8,
    control: Control,
    information: Seq<u8>,
)
    requires
        session.wf(),
        session.remote is Some,
        session.remote != Some(0u16),
        dlci <= rfcomm::MAX_DLCI,
        information.len() <= rfcomm::MAX_FRAME,
        match control {
            Control::Sabm => dlci != 0 && (!session.multiplexer || session.open is Some),
            Control::Uih => session.open != Some(dlci),
            Control::Disc => dlci != 0 && session.open != Some(dlci),
            _ => false,
        },
    ensures
        session.handled(to_server(dlci, control, information)) == (
            session,
            answered_with(session.remote->0, dlci, Control::Dm, None),
        ),
{
    lemma_handles_frame(session, dlci, control, information);
}

/// Before the channel is open no RFCOMM frame is taken.
pub proof fn law_no_channel_no_frames(session: SessionView, payload: Seq<u8>)
    requires
        session.remote is None,
        payload.len() <= l2cap::MAX_PAYLOAD,
    ensures
        session.handled(
            l2cap::FrameView { cid: l2cap::FIRST_DYNAMIC, payload }.bytes(),
        ) == (session, Err::<ResponseView, Error>(Error::ChannelNotOpen(l2cap::FIRST_DYNAMIC))),
{
    l2cap::law_frame_reads_back(l2cap::FrameView { cid: l2cap::FIRST_DYNAMIC, payload });
}

/// A connection is over exactly when a disconnection request came, and then
/// nothing of it is left.
pub proof fn law_disconnection_ends_the_connection(session: SessionView, packet: Seq<u8>)
    ensures
        ({
            let (next, said) = session.handled(packet);
            let over = said is Ok && said->Ok_0.closed;
            &&& over <==> is_disconnection(packet)
            &&& over ==> next == SessionView::fresh()
        }),
{
}

/// The RFCOMM frame in a packet to the server's channel, if it is one.
pub open spec fn frame_in(packet: Seq<u8>) -> Option<rfcomm::FrameView> {
    match l2cap::frame_of(packet) {
        Ok(outer) => if outer.cid == l2cap::FIRST_DYNAMIC {
            match rfcomm::frame_of(outer.payload) {
                Ok(frame) => Some(frame),
                Err(_) => None,
            }
        } else {
            None
        },
        Err(_) => None,
    }
}

/// The information that a packet carries on `dlci`: that of a UIH frame on it,
/// and nothing of any other packet.
pub open spec fn data_in(packet: Seq<u8>, dlci: u8) -> Seq<u8> {
    match frame_in(packet) {
        Some(frame) => if frame.control == Control::Uih && frame.dlci == dlci {
            frame.information
        } else {
            Seq::empty()
        },
        None => Seq::empty(),
    }
}

/// The information that several packets carry on `dlci`, in order.
pub open spec fn data_of(packets: Seq<Seq<u8>>, dlci: u8) -> Seq<u8>
    decreases packets.len(),
{
    if packets.len() == 0 {
        Seq::empty()
    } else {
        data_of(packets.drop_last(), dlci) + data_in(packets.last(), dlci)
    }
}

/// Whether a packet is DISC on `dlci`.
pub open spec fn is_disc(packet: Seq<u8>, dlci: u8) -> bool {
    frame_in(packet) matches Some(frame) && frame.control == Control::Disc && frame.dlci == dlci
}

/// Whether a packet is a disconnection request.
pub open spec fn is_disconnection(packet: Seq<u8>) -> bool {
    &&& l2cap::frame_of(packet) matches Ok(outer)
    &&& outer.cid == l2cap::SIGNALLING
    &&& l2cap::signal_of(outer.payload) matches Ok(signal)
    &&& signal is DisconnectionRequest
}

/// What came on the open link is never lost, reordered or mixed with anything
/// else: a packet leaves the link open and its Stream longer by exactly the
/// information it carries on the link, or completes the Stream with all that
/// came, or ends the connection.
pub proof fn law_stream_is_kept_whole(session: SessionView, packet: Seq<u8>, dlci: u8)
    requires
        session.wf(),
        session.open == Some(dlci),
        session.remote != Some(0u16),
    ensures
        ({
            let (next, said) = session.handled(packet);
            let complete = if said is Ok {
                said->Ok_0.complete
            } else {
                None
            };
            if is_disc(packet, dlci) {
                next.open is None && complete == Some((dlci, session.information))
            } else if is_disconnection(packet) {
                next == SessionView::fresh() && said is Ok && said->Ok_0.closed
            } else {
                &&& next.open == Some(dlci)
                &&& next.information == session.information + data_in(packet, dlci)
                &&& complete is None
            }
        }),
{
    if !is_disc(packet, dlci) && !is_disconnection(packet) {
        lemma_link_stays(session, packet, dlci);
    }
}

/// A packet that closes neither the open link nor the connection leaves the
/// link open, and completes nothing.
proof fn lemma_link_stays(session: SessionView, packet: Seq<u8>, dlci: u8)
    requires
        session.wf(),
        session.open == Some(dlci),
        !is_disc(packet, dlci),
        !is_disconnection(packet),
    ensures
        ({
            let (next, said) = session.handled(packet);
            &&& next.wf()
            &&& next.open == Some(dlci)
            &&& next.information == session.information + data_in(packet, dlci)
            &&& said matches Ok(response) ==> response.complete is None && !response.closed
        }),
{
    law_session_stays_wf(session, packet);
    assert(session.information + Seq::<u8>::empty() =~= session.information);
}

/// Packets that close neither the open link nor the connection leave the link
/// open, with exactly their information on the link put after what was there,
/// and complete nothing.
proof fn lemma_link_stays_run(session: SessionView, packets: Seq<Seq<u8>>, dlci: u8)
    requires
        session.wf(),
        session.open == Some(dlci),
        forall|i: int|
            0 <= i < packets.len() ==> !is_disc(#[trigger] packets[i], dlci) && !is_disconnection(
                packets[i],
            ),
    ensures
        session.after(packets).wf(),
        session.after(packets).open == Some(dlci),
        session.after(packets).information == session.information + data_of(packets, dlci),
        forall|i: int|
            0 <= i < packets.len() ==> (session.after(packets.take(i)).handled(
                #[trigger] packets[i],
            ).1 matches Ok(response) ==> response.complete is None && !response.closed),
    decreases packets.len(),
{
    if packets.len() == 0 {
        assert(session.information + data_of(packets, dlci) =~= session.information);
    } else {
        let fewer = packets.drop_last();
        assert forall|i: int| 0 <= i < fewer.len() implies !is_disc(#[trigger] fewer[i], dlci)
            && !is_disconnection(fewer[i]) by {
            assert(fewer[i] == packets[i]);
        }
        lemma_link_stays_run(session, fewer, dlci);
        let last = packets.len() - 1;
        assert(packets[last] == packets.last());
        lemma_link_stays(session.after(fewer), packets.last(), dlci);
        assert(session.information + data_of(fewer, dlci) + data_in(packets.last(), dlci)
            =~= session.information + data_of(packets, dlci));
        assert forall|i: int| 0 <= i < packets.len() implies (session.after(
            packets.take(i),
        ).handled(#[trigger] packets[i]).1 matches Ok(response) ==> response.complete is None
            && !response.closed) by {
            if i < last {
                assert(fewer[i] == packets[i]);
                assert(fewer.take(i) =~= packets.take(i));
            } else {
                assert(packets.take(i) =~= fewer);
            }
        }
    }
}

/// A Stream is the information of its own link and of nothing else, whatever
/// comes between its SABM and its DISC: frames on other links, signals and
/// packets that are refused complete nothing and add nothing, and DISC
/// completes the link's Stream with exactly the information of the UIH frames
/// on the link, in order.
pub proof fn law_stream_is_of_its_own_link(
    session: SessionView,
    dlci: u8,
    packets: Seq<Seq<u8>>,
)
    requires
        session.wf(),
        session.multiplexer,
        session.open is None,
        session.remote != Some(0u16),
        1 <= dlci <= rfcomm::MAX_DLCI,
        forall|i: int|
            0 <= i < packets.len() ==> !is_disc(#[trigger] packets[i], dlci) && !is_disconnection(
                packets[i],
            ),
        session.handled(to_server(dlci, Control::Sabm, Seq::empty())).0.after(packets).remote
            != Some(0u16),
    ensures
        ({
            let opened = session.handled(to_server(dlci, Control::Sabm, Seq::empty()));
            let loaded = opened.0.after(packets);
            let closed = loaded.handled(to_server(dlci, Control::Disc, Seq::empty()));
            &&& opened.1 == answered_with(session.remote->0, dlci, Control::Ua, None)
            &&& forall|i: int|
                0 <= i < packets.len() ==> (opened.0.after(packets.take(i)).handled(
                    #[trigger] packets[i],
                ).1 matches Ok(response) ==> response.complete is None && !response.closed)
            &&& closed.1 == answered_with(
                loaded.remote->0,
                dlci,
                Control::Ua,
                Some((dlci, data_of(packets, dlci))),
            )
            &&& closed.0 == (SessionView { open: None, information: Seq::empty(), ..loaded })
        }),
{
    let opened = SessionView { open: Some(dlci), information: Seq::empty(), ..session };
    lemma_handles_frame(session, dlci, Control::Sabm, Seq::empty());
    lemma_link_stays_run(opened, packets, dlci);
    assert(opened.information + data_of(packets, dlci) =~= data_of(packets, dlci));
    lemma_handles_frame(opened.after(packets), dlci, Control::Disc, Seq::empty());
}

/// Nobody is connected to a fresh session: it knows no channel, its multiplexer
/// is down, no data link is open and it holds nothing.
pub proof fn law_fresh_session_holds_nothing()
    ensures
        SessionView::fresh().remote is None,
        !SessionView::fresh().multiplexer,
        SessionView::fresh().open is None,
        SessionView::fresh().information.len() == 0,
{
}

/// A connection request, in any state, has one answer, on channel 1: a
/// connection response that reads back with the request's own identifier and
/// source. One for PSM 3 finds the channel open at 0x0040 with result 0, and its
/// source is where answers go from then on; any other is told channel 0 and
/// result 2, and changes nothing.
pub proof fn law_connection_request_is_answered(
    session: SessionView,
    packet: Seq<u8>,
    identifier: u8,
    psm: u16,
    source: u16,
)
    requires
        l2cap::frame_of(packet) matches Ok(outer) && outer.cid == 1 && l2cap::signal_of(
            outer.payload,
        ) == Ok::<Signal, Error>(Signal::ConnectionRequest { identifier, psm, source }),
    ensures
        ({
            let (next, said) = session.handled(packet);
            &&& said matches Ok(response)
            &&& response.answers.len() == 1 && response.complete is None && !response.closed
            &&& l2cap::frame_of(response.answers[0]) matches Ok(answer)
            &&& answer.cid == 1
            &&& l2cap::signal_of(answer.payload) matches Ok(
                Signal::ConnectionResponse {
                    identifier: echoed,
                    destination,
                    source: named,
                    result,
                },
            )
            &&& echoed == identifier && named == source
            &&& psm == 3 ==> destination == 0x0040 && result == 0
            &&& psm != 3 ==> destination == 0 && result == 2
            &&& psm == 3 ==> next.remote == Some(source)
            &&& psm != 3 ==> next.remote == session.remote
            &&& next.multiplexer == session.multiplexer
            &&& next.open == session.open
            &&& next.information == session.information
        }),
{
    packet::law_signal_packet_reads_back(
        SessionView::connection_response(identifier, psm, source),
    );
}

/// A disconnection request, in any state, has one answer, on channel 1: a
/// disconnection response that reads back with the request's own identifier,
/// destination and source. The connection is over, and nothing of it is left.
pub proof fn law_disconnection_request_is_answered(
    session: SessionView,
    packet: Seq<u8>,
    identifier: u8,
    destination: u16,
    source: u16,
)
    requires
        l2cap::frame_of(packet) matches Ok(outer) && outer.cid == 1 && l2cap::signal_of(
            outer.payload,
        ) == Ok::<Signal, Error>(Signal::DisconnectionRequest { identifier, destination, source }),
    ensures
        ({
            let (next, said) = session.handled(packet);
            &&& said matches Ok(response)
            &&& response.answers.len() == 1 && response.complete is None && response.closed
            &&& l2cap::frame_of(response.answers[0]) matches Ok(answer)
            &&& answer.cid == 1
            &&& l2cap::signal_of(answer.payload) == Ok::<Signal, Error>(
                Signal::DisconnectionResponse { identifier, destination, source },
            )
            &&& next.remote is None && !next.multiplexer && next.open is None
            &&& next.information.len() == 0
        }),
{
    packet::law_signal_packet_reads_back(
        Signal::DisconnectionResponse { identifier, destination, source },
    );
}

/// Which packets are refused, with what, and that they change nothing: bytes
/// that are no frame and signals that cannot be read with what is wrong with
/// them, a response where a request is due, a frame on any channel but 1 and
/// the one that was opened at 0x0040, and there what is no RFCOMM frame.
pub proof fn law_packet_is_refused_for_what_is_wrong(session: SessionView, packet: Seq<u8>)
    ensures
        ({
            let (next, said) = session.handled(packet);
            let refused = |error: Error|
                next == session && said == Err::<ResponseView, Error>(error);
            match l2cap::frame_of(packet) {
                Err(error) => refused(error),
                Ok(outer) => if outer.cid == 1 {
                    match l2cap::signal_of(outer.payload) {
                        Err(error) => refused(error),
                        Ok(Signal::ConnectionResponse { .. }) => refused(Error::ResponseNotDue),
                        Ok(Signal::DisconnectionResponse { .. }) => refused(Error::ResponseNotDue),
                        Ok(_) => said is Ok,
                    }
                } else if outer.cid == 0x0040 && session.remote is Some {
                    rfcomm::frame_of(outer.payload) matches Err(error) ==> refused(error)
                } else {
                    refused(Error::ChannelNotOpen(outer.cid))
                },
            }
        }),
{
}

/// What an RFCOMM frame on the open channel does to the session, case by case,
/// and how it is answered. The one answer, where there is one, is on the
/// requester's channel and reads back as a frame on the same DLCI that carries
/// nothing: UA to what opens or closes something, DM to what is not open.
/// A requester on channel 0 cannot be answered.
pub proof fn law_frame_does_what_its_control_says(
    session: SessionView,
    packet: Seq<u8>,
    remote: u16,
    frame: rfcomm::FrameView,
)
    requires
        session.wf(),
        session.remote == Some(remote),
        l2cap::frame_of(packet) matches Ok(outer) && outer.cid == 0x0040 && rfcomm::frame_of(
            outer.payload,
        ) == Ok::<rfcomm::FrameView, Error>(frame),
    ensures
        ({
            let (next, said) = session.handled(packet);
            let silent = said matches Ok(response) && response.answers.len() == 0
                && response.complete is None && !response.closed;
            let with = |control: Control, complete: Option<(u8, Seq<u8>)>|
                if remote == 0 {
                    said == Err::<ResponseView, Error>(Error::NullChannel)
                } else {
                    &&& said matches Ok(response)
                    &&& response.answers.len() == 1 && !response.closed
                    &&& response.complete == complete
                    &&& l2cap::frame_of(response.answers[0]) matches Ok(answer)
                    &&& answer.cid == remote
                    &&& rfcomm::frame_of(answer.payload) matches Ok(inner)
                    &&& inner.dlci == frame.dlci && inner.control == control
                    &&& inner.information.len() == 0
                };
            let mine = session.open == Some(frame.dlci);
            &&& next.remote == session.remote
            &&& match frame.control {
                Control::Sabm => if frame.dlci == 0 {
                    &&& with(Control::Ua, None)
                    &&& next.multiplexer && next.open == session.open
                    &&& next.information == session.information
                } else if session.multiplexer && session.open is None {
                    &&& with(Control::Ua, None)
                    &&& next.multiplexer && next.open == Some(frame.dlci)
                    &&& next.information.len() == 0
                } else {
                    with(Control::Dm, None) && next == session
                },
                Control::Uih => if mine {
                    &&& silent
                    &&& next.multiplexer == session.multiplexer && next.open == session.open
                    &&& next.information == session.information + frame.information
                } else {
                    with(Control::Dm, None) && next == session
                },
                Control::Disc => if mine {
                    &&& with(Control::Ua, Some((frame.dlci, session.information)))
                    &&& next.multiplexer == session.multiplexer && next.open is None
                    &&& next.information.len() == 0
                } else if frame.dlci == 0 {
                    &&& with(Control::Ua, None)
                    &&& !next.multiplexer && next.open == session.open
                    &&& next.information == session.information
                } else {
                    with(Control::Dm, None) && next == session
                },
                Control::Ua => silent && next == session,
                Control::Dm => silent && next == session,
            }
        }),
{
    if remote != 0 {
        packet::law_rfcomm_packet_reads_back(remote, frame.dlci, Control::Ua, Seq::empty());
        packet::law_rfcomm_packet_reads_back(remote, frame.dlci, Control::Dm, Seq::empty());
    }
}

/// What a response's view holds is what the response holds, packet for packet.
pub proof fn law_response_view_is_plain(response: Response)
    ensures
        response@.answers.len() == response.answers@.len(),
        forall|i: int|
            0 <= i < response.answers@.len() ==> #[trigger] response@.answers[i]
                == response.answers@[i]@,
        response.complete is None <==> response@.complete is None,
        response.complete matches Some(stream) ==> response@.complete == Some(
            (stream.0, stream.1@),
        ),
        response@.closed == response.closed,
{
}

} // verus!
