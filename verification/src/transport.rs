//! One end of an ACL link, client when it sends and server when it receives.

use crate::client;
use crate::conversation;
use crate::error::Error;
use crate::l2cap;
use crate::l2cap::Signal;
use crate::packet;
use crate::radio;
use crate::radio::{Event, LoopbackRadio, LoopbackView, Radio};
use crate::rfcomm;
use crate::rfcomm::Control;
use crate::server;
use crate::server::{ServedView, Serving, ServingView};
use crate::session;
use crate::text;
use std::time::Duration;
use vstd::prelude::*;
use vstd::slice::slice_subrange;

verus! {

/// The duration of a whole number of seconds.
pub uninterp spec fn whole_seconds(secs: u64) -> Duration;

/// Specifies `Duration::from_secs`. Trusted: the duration is a function of the
/// number of seconds alone, and goes by the name [`whole_seconds`].
pub assume_specification[ Duration::from_secs ](secs: u64) -> (duration: Duration)
    ensures
        duration == whole_seconds(secs),
;

/// How many seconds a peer has to answer, unless another time is set.
pub const DEFAULT_TIMEOUT_SECS: u64 = 5;

/// The server channel of a loopback.
pub const LOOPBACK_CHANNEL: u8 = 3;

/// The lowest server channel there is.
pub const MIN_CHANNEL: u8 = 1;

/// The highest server channel there is.
pub const MAX_CHANNEL: u8 = 30;

/// A Stream that arrived, and where it came from.
#[derive(Clone, Debug, PartialEq, Eq)]
pub struct Arrived {
    pub origin_uri: String,
    pub bytes: Vec<u8>,
}

/// A Stream that arrived, its origin and its bytes sequences.
#[verifier::ext_equal]
pub struct ArrivedView {
    pub origin_uri: Seq<char>,
    pub bytes: Seq<u8>,
}

impl View for Arrived {
    type V = ArrivedView;

    open spec fn view(&self) -> ArrivedView {
        ArrivedView { origin_uri: self.origin_uri@, bytes: self.bytes@ }
    }
}

/// `bt://<radio>/<server channel>`.
pub open spec fn origin_of(radio: Seq<char>, channel: u8) -> Seq<char> {
    "bt://"@ + radio + "/"@ + text::decimal_of(channel as nat)
}

/// `bt://<radio>/<server channel>`, for the radio that is called `radio`.
fn origin_on(radio: &str, channel: u8) -> (origin: String)
    ensures
        origin@ == origin_of(radio@, channel),
{
    let mut origin: String = "bt://".to_owned();
    origin.append(radio);
    origin.append("/");
    origin.append(text::decimal(channel as usize).as_str());
    origin
}

/// One end of an ACL link, client when it sends and server when it receives.
pub struct BluetoothTransport<R: Radio> {
    pub radio: R,
    pub channel: u8,
    pub timeout: Duration,
}

impl<R: Radio + Clone> Clone for BluetoothTransport<R> {
    /// The same channel and timeout, on a clone of the radio.
    fn clone(&self) -> (copy: BluetoothTransport<R>)
        ensures
            copy.same_but_radio(*self),
            cloned::<R>(self.radio, copy.radio),
    {
        BluetoothTransport {
            radio: self.radio.clone(),
            channel: self.channel,
            timeout: self.timeout,
        }
    }
}

impl<R: Radio> BluetoothTransport<R> {
    /// On `radio`, sending to and serving server channel `channel`; a peer has
    /// five seconds to answer.
    #[must_use]
    pub fn new(radio: R, channel: u8) -> (transport: BluetoothTransport<R>)
        ensures
            transport == (BluetoothTransport {
                radio,
                channel,
                timeout: whole_seconds(DEFAULT_TIMEOUT_SECS),
            }),
    {
        BluetoothTransport { radio, channel, timeout: Duration::from_secs(DEFAULT_TIMEOUT_SECS) }
    }

    /// Give up on a peer that does not answer within `timeout`.
    #[must_use]
    pub fn timing_out_after(self, timeout: Duration) -> (transport: BluetoothTransport<R>)
        ensures
            transport == (BluetoothTransport { timeout, ..self }),
    {
        BluetoothTransport { radio: self.radio, channel: self.channel, timeout }
    }

    /// `bt://<radio>/<server channel>`.
    #[must_use]
    pub fn origin(&self, channel: u8) -> (origin: String)
        ensures
            origin@ == origin_of(self.radio.called(), channel),
    {
        origin_on(self.radio.name(), channel)
    }

    /// What a method that only uses the radio leaves as it was.
    pub open spec fn same_but_radio(self, other: BluetoothTransport<R>) -> bool {
        self.channel == other.channel && self.timeout == other.timeout
    }

    fn exchange(&mut self, packet: &[u8]) -> (answer: Result<Vec<u8>, Error>)
        requires
            old(self).radio.wf(),
        ensures
            final(self).radio.wf(),
            final(self).same_but_radio(*old(self)),
            old(self).radio.log().is_prefix_of(final(self).radio.log()),
            client::exchanges(
                packet@,
                old(self).timeout,
                client::since(old(self).radio.log(), final(self).radio.log()),
            ),
            crate::error::viewed(answer) == client::answer_in(
                client::since(old(self).radio.log(), final(self).radio.log()),
            ),
    {
        match self.radio.transmit(packet) {
            Ok(_) => {},
            Err(error) => return Err(error),
        }
        match self.radio.receive(self.timeout) {
            Ok(Some(answer)) => Ok(answer),
            Ok(None) => Err(Error::NoAnswer),
            Err(error) => Err(error),
        }
    }

    fn signal(&mut self, signal: &Signal) -> (answer: Result<Signal, Error>)
        requires
            old(self).radio.wf(),
        ensures
            final(self).radio.wf(),
            final(self).same_but_radio(*old(self)),
            old(self).radio.log().is_prefix_of(final(self).radio.log()),
            client::exchanges(
                packet::signal_packet(*signal),
                old(self).timeout,
                client::since(old(self).radio.log(), final(self).radio.log()),
            ),
            answer == (match client::answer_in(
                client::since(old(self).radio.log(), final(self).radio.log()),
            ) {
                Err(error) => Err(error),
                Ok(answer) => client::signal_in(answer),
            }),
    {
        let packet: Vec<u8> = packet::of_signal(signal);
        let answer: Vec<u8> = match self.exchange(packet.as_slice()) {
            Ok(answer) => answer,
            Err(error) => return Err(error),
        };
        match l2cap::Frame::decode(answer.as_slice()) {
            Ok(outer) => Signal::decode(outer.payload.as_slice()),
            Err(error) => Err(error),
        }
    }

    /// Open the L2CAP channel to RFCOMM: the server's identifier for it.
    fn connect(&mut self) -> (remote: Result<u16, Error>)
        requires
            old(self).radio.wf(),
        ensures
            final(self).radio.wf(),
            final(self).same_but_radio(*old(self)),
            old(self).radio.log().is_prefix_of(final(self).radio.log()),
            client::exchanges(
                packet::signal_packet(client::connection_request()),
                old(self).timeout,
                client::since(old(self).radio.log(), final(self).radio.log()),
            ),
            remote == client::remote_in(
                client::since(old(self).radio.log(), final(self).radio.log()),
            ),
    {
        let request: Signal = Signal::ConnectionRequest {
            identifier: 1,
            psm: l2cap::RFCOMM_PSM,
            source: l2cap::FIRST_DYNAMIC,
        };
        match self.signal(&request) {
            Ok(Signal::ConnectionResponse { destination, result, .. }) => if result
                == l2cap::SUCCESS {
                Ok(destination)
            } else {
                Err(Error::ChannelRefused(result))
            },
            Ok(_) => Err(Error::NotConnectionResponse),
            Err(error) => Err(error),
        }
    }

    fn command(&mut self, remote: u16, dlci: u8, control: Control) -> (outcome: Result<(), Error>)
        requires
            old(self).radio.wf(),
        ensures
            final(self).radio.wf(),
            final(self).same_but_radio(*old(self)),
            old(self).radio.log().is_prefix_of(final(self).radio.log()),
            client::plays_step(
                client::command_step(remote, dlci, control),
                old(self).timeout,
                client::since(old(self).radio.log(), final(self).radio.log()),
                outcome,
            ),
    {
        let none: Vec<u8> = Vec::new();
        let packet: Vec<u8> = match packet::of_rfcomm(remote, dlci, control, none.as_slice()) {
            Ok(packet) => packet,
            Err(error) => return Err(error),
        };
        let answer: Vec<u8> = match self.exchange(packet.as_slice()) {
            Ok(answer) => answer,
            Err(error) => return Err(error),
        };
        let outer: l2cap::Frame = match l2cap::Frame::decode(answer.as_slice()) {
            Ok(outer) => outer,
            Err(error) => return Err(error),
        };
        match rfcomm::Frame::decode(outer.payload.as_slice()) {
            Ok(frame) => match frame.control {
                Control::Ua => Ok(()),
                Control::Dm => Err(Error::LinkRefused(dlci)),
                other => Err(Error::NotUa(other)),
            },
            Err(error) => Err(error),
        }
    }

    /// Write `bytes` as one data link connection on server channel `channel`.
    /// A peer that does not answer, refuses the channel or the link, or
    /// answers something else is an error.
    pub fn send_stream(&mut self, channel: u8, bytes: &[u8]) -> (outcome: Result<(), Error>)
        requires
            old(self).radio.wf(),
        ensures
            final(self).radio.wf(),
            final(self).same_but_radio(*old(self)),
            old(self).radio.log().is_prefix_of(final(self).radio.log()),
            client::sends(
                channel,
                bytes@,
                old(self).timeout,
                client::since(old(self).radio.log(), final(self).radio.log()),
                outcome,
            ),
    {
        let ghost before = self.radio.log();
        let dlci: u8 = channel << 1;
        proof {
            assert(channel << 1 == (2 * (channel % 128)) as u8) by (bit_vector);
        }
        let remote: u16 = match self.connect() {
            Ok(remote) => remote,
            Err(error) => {
                proof {
                    let events = client::since(before, self.radio.log());
                    if events.len() == 2 {
                        assert(events.take(2) =~= events);
                    }
                }
                return Err(error);
            },
        };
        let ghost start = self.radio.log();
        let outcome: Result<(), Error> = self.converse(remote, dlci, bytes);
        proof {
            let events = client::since(before, self.radio.log());
            assert(events.take(2) =~= client::since(before, start));
            assert(events.skip(2) =~= client::since(start, self.radio.log()));
        }
        outcome
    }

    /// Take the steps that follow once the channel is open at `remote`.
    fn converse(&mut self, remote: u16, dlci: u8, bytes: &[u8]) -> (outcome: Result<(), Error>)
        requires
            old(self).radio.wf(),
        ensures
            final(self).radio.wf(),
            final(self).same_but_radio(*old(self)),
            old(self).radio.log().is_prefix_of(final(self).radio.log()),
            client::plays(
                client::steps(remote, dlci, bytes@),
                old(self).timeout,
                client::since(old(self).radio.log(), final(self).radio.log()),
                outcome,
            ),
    {
        let ghost timeout = self.timeout;
        let ghost start = self.radio.log();
        let ghost steps = client::steps(remote, dlci, bytes@);
        let ghost count = client::piece_count(bytes@.len()) as int;
        let ghost mut log = start;
        proof {
            assert(client::since(start, start) =~= Seq::empty());
            assert(steps.take(0) =~= Seq::empty());
            assert(steps.len() == count + 5);
        }
        let opened: Result<(), Error> = self.command(remote, 0, Control::Sabm);
        proof {
            client::lemma_plays_next(steps, 0, timeout, start, log, self.radio.log(), opened);
            log = self.radio.log();
        }
        if opened.is_err() {
            return opened;
        }
        let opened: Result<(), Error> = self.command(remote, dlci, Control::Sabm);
        proof {
            client::lemma_plays_next(steps, 1, timeout, start, log, self.radio.log(), opened);
            log = self.radio.log();
        }
        if opened.is_err() {
            return opened;
        }
        let written: Result<(), Error> = self.write(remote, dlci, bytes, Ghost(start));
        proof {
            log = self.radio.log();
        }
        if written.is_err() {
            return written;
        }
        let closed: Result<(), Error> = self.command(remote, dlci, Control::Disc);
        proof {
            client::lemma_plays_next(
                steps,
                count + 2,
                timeout,
                start,
                log,
                self.radio.log(),
                closed,
            );
            log = self.radio.log();
        }
        if closed.is_err() {
            return closed;
        }
        let closed: Result<(), Error> = self.command(remote, 0, Control::Disc);
        proof {
            client::lemma_plays_next(
                steps,
                count + 3,
                timeout,
                start,
                log,
                self.radio.log(),
                closed,
            );
            log = self.radio.log();
        }
        if closed.is_err() {
            return closed;
        }
        let request: Signal = Signal::DisconnectionRequest {
            identifier: 2,
            destination: remote,
            source: l2cap::FIRST_DYNAMIC,
        };
        let outcome: Result<(), Error> = match self.signal(&request) {
            Ok(Signal::DisconnectionResponse { .. }) => Ok(()),
            Ok(_) => Err(Error::NotDisconnectionResponse),
            Err(error) => Err(error),
        };
        proof {
            client::lemma_plays_next(
                steps,
                count + 4,
                timeout,
                start,
                log,
                self.radio.log(),
                outcome,
            );
            assert(steps.take(count + 5) =~= steps);
            if let Ok(nothing) = outcome {
                assert(nothing == ());
            }
        }
        outcome
    }

    /// Write the pieces of a Stream on its data link, which opened since the
    /// log was `start`.
    fn write(
        &mut self,
        remote: u16,
        dlci: u8,
        bytes: &[u8],
        Ghost(start): Ghost<Seq<Event>>,
    ) -> (outcome: Result<(), Error>)
        requires
            old(self).radio.wf(),
            start.is_prefix_of(old(self).radio.log()),
            client::plays(
                client::steps(remote, dlci, bytes@).take(2),
                old(self).timeout,
                client::since(start, old(self).radio.log()),
                Ok(()),
            ),
        ensures
            final(self).radio.wf(),
            final(self).same_but_radio(*old(self)),
            old(self).radio.log().is_prefix_of(final(self).radio.log()),
            outcome is Ok ==> client::plays(
                client::steps(remote, dlci, bytes@).take(
                    client::piece_count(bytes@.len()) as int + 2,
                ),
                old(self).timeout,
                client::since(start, final(self).radio.log()),
                Ok(()),
            ),
            outcome is Err ==> client::plays(
                client::steps(remote, dlci, bytes@),
                old(self).timeout,
                client::since(start, final(self).radio.log()),
                outcome,
            ),
    {
        let ghost timeout = self.timeout;
        let ghost entry = self.radio.log();
        let ghost steps = client::steps(remote, dlci, bytes@);
        let ghost count = client::piece_count(bytes@.len()) as int;
        let ghost mut at: int = 0;
        let mut written: usize = 0;
        while written < bytes.len()
            invariant
                self.radio.wf(),
                self.same_but_radio(*old(self)),
                self.timeout == timeout,
                timeout == old(self).timeout,
                entry == old(self).radio.log(),
                entry.is_prefix_of(self.radio.log()),
                start.is_prefix_of(entry),
                steps == client::steps(remote, dlci, bytes@),
                count == client::piece_count(bytes@.len()),
                0 <= at <= count,
                written == (if rfcomm::N1 * at <= bytes@.len() {
                    rfcomm::N1 * at
                } else {
                    bytes@.len() as int
                }),
                client::plays(
                    steps.take(at + 2),
                    timeout,
                    client::since(start, self.radio.log()),
                    Ok(()),
                ),
            decreases bytes.len() - written,
        {
            let ghost log = self.radio.log();
            let end: usize = if bytes.len() - written > rfcomm::N1 {
                written + rfcomm::N1
            } else {
                bytes.len()
            };
            let piece: &[u8] = slice_subrange(bytes, written, end);
            proof {
                assert(at < count);
                assert(piece@ =~= client::piece(bytes@, at));
                assert(steps[at + 2] == client::data_step(remote, dlci, piece@));
            }
            let outcome: Result<(), Error> = match packet::of_rfcomm(
                remote,
                dlci,
                Control::Uih,
                piece,
            ) {
                Ok(packet) => self.radio.transmit(packet.as_slice()),
                Err(error) => Err(error),
            };
            proof {
                if let Ok(packet) = steps[at + 2].packet {
                    assert(client::since(log, self.radio.log()) =~= seq![
                        Event::Transmitted { packet, outcome },
                    ]);
                }
                client::lemma_plays_next(
                    steps,
                    at + 2,
                    timeout,
                    start,
                    log,
                    self.radio.log(),
                    outcome,
                );
                at = at + 1;
            }
            if outcome.is_err() {
                return outcome;
            }
            written = end;
        }
        proof {
            assert(at == count);
        }
        Ok(())
    }

    /// Send to the server channel that `named` names, or to the transport's
    /// own where it names none. A text that is no server channel is refused
    /// before anything is said.
    pub fn send(&mut self, named: Option<&str>, bytes: &[u8]) -> (outcome: Result<(), Error>)
        requires
            old(self).radio.wf(),
        ensures
            final(self).radio.wf(),
            match channel_of(named, old(self).channel) {
                None => {
                    &&& *final(self) == *old(self)
                    &&& outcome matches Err(Error::NotServerChannel(text))
                    &&& text@ == named->0@
                },
                Some(channel) => {
                    &&& final(self).same_but_radio(*old(self))
                    &&& old(self).radio.log().is_prefix_of(final(self).radio.log())
                    &&& client::sends(
                        channel,
                        bytes@,
                        old(self).timeout,
                        client::since(old(self).radio.log(), final(self).radio.log()),
                        outcome,
                    )
                },
            },
    {
        match server_channel(named, self.channel) {
            Ok(channel) => self.send_stream(channel, bytes),
            Err(error) => Err(error),
        }
    }

    /// Serve one connection: answer the peer until a data link closes, and hand
    /// over what it carried; nothing when nobody connected in time. What the
    /// peer says after its data is answered too, until it closes the channel
    /// or says no more; the Stream that a data link delivered last is the one
    /// handed over. At most `turns` packets are taken; where the peer is not
    /// done by then, what comes back is the connection to go on with. A link
    /// that cannot be read, a peer that breaks the protocol and one that goes
    /// quiet before any data link closed are errors. The origin names the radio
    /// as it was called when the data link closed.
    pub fn receive_one(&mut self, serving: Serving, turns: u64) -> (received: Result<
        Reception,
        Error,
    >)
        requires
            old(self).radio.wf(),
        ensures
            final(self).radio.wf(),
            final(self).same_but_radio(*old(self)),
            old(self).radio.log().is_prefix_of(final(self).radio.log()),
            old(self).radio.names().is_prefix_of(final(self).radio.names()),
            received is Ok ==> server::names_since(
                old(self).radio.names(),
                final(self).radio.names(),
            ).len() == client::since(old(self).radio.log(), final(self).radio.log()).len(),
            exists|end: Result<ServedView, Error>| #[trigger]
                server::serves(
                    serving@,
                    turns as nat,
                    old(self).timeout,
                    client::since(old(self).radio.log(), final(self).radio.log()),
                    end,
                ) && crate::error::viewed(received) == reception_of(
                    end,
                    server::radio_since(
                        serving.radio(),
                        serving@,
                        turns as nat,
                        client::since(old(self).radio.log(), final(self).radio.log()),
                        server::names_since(old(self).radio.names(), final(self).radio.names()),
                    ),
                ),
            received matches Ok(Reception::More(more)) ==> more.radio() == server::radio_since(
                serving.radio(),
                serving@,
                turns as nat,
                client::since(old(self).radio.log(), final(self).radio.log()),
                server::names_since(old(self).radio.names(), final(self).radio.names()),
            ),
    {
        let ghost timeout = self.timeout;
        let ghost start = self.radio.log();
        let ghost called = self.radio.names();
        let ghost first = serving@;
        let ghost radio = serving.radio();
        let mut current: Serving = serving;
        let mut turn: u64 = 0;
        proof {
            assert(client::since(start, start) =~= Seq::empty());
        }
        while turn < turns
            invariant
                self.radio.wf(),
                self.same_but_radio(*old(self)),
                timeout == old(self).timeout,
                start == old(self).radio.log(),
                called == old(self).radio.names(),
                first == serving@,
                radio == serving.radio(),
                start.is_prefix_of(self.radio.log()),
                called.is_prefix_of(self.radio.names()),
                server::names_since(called, self.radio.names()).len() == client::since(
                    start,
                    self.radio.log(),
                ).len(),
                current.radio() == server::radio_since(
                    radio,
                    first,
                    turn as nat,
                    client::since(start, self.radio.log()),
                    server::names_since(called, self.radio.names()),
                ),
                turn <= turns,
                server::serves(
                    first,
                    turn as nat,
                    timeout,
                    client::since(start, self.radio.log()),
                    Ok::<ServedView, Error>(ServedView::More { serving: current@ }),
                ),
            decreases turns - turn,
        {
            let ghost before = self.radio.log();
            let ghost names = self.radio.names();
            let ghost held = current@;
            let served: Result<bool, Error> = self.turn(&mut current);
            let ghost end = turn_end(served, current@);
            proof {
                let events = client::since(before, self.radio.log());
                server::lemma_serves_append(
                    first,
                    turn as nat,
                    held,
                    1,
                    timeout,
                    client::since(start, before),
                    events,
                    end,
                );
                assert(client::since(start, self.radio.log()) =~= client::since(start, before)
                    + events);
                let later = server::names_since(names, self.radio.names());
                server::lemma_radio_append(
                    radio,
                    first,
                    turn as nat,
                    held,
                    1,
                    timeout,
                    client::since(start, before),
                    server::names_since(called, names),
                    events,
                    later,
                );
                assert(server::names_since(called, self.radio.names()) =~= server::names_since(
                    called,
                    names,
                ) + later);
                if let Ok(ServedView::Over { stream }) = end {
                    server::lemma_radio_ended(
                        radio,
                        first,
                        (turn + 1) as nat,
                        turns as nat,
                        timeout,
                        client::since(start, self.radio.log()),
                        server::names_since(called, self.radio.names()),
                        stream,
                    );
                }
                if !(end matches Ok(ServedView::More { .. })) {
                    server::lemma_serves_ended(
                        first,
                        (turn + 1) as nat,
                        turns as nat,
                        timeout,
                        client::since(start, self.radio.log()),
                        end,
                    );
                }
            }
            match served {
                Ok(true) => {
                    let ghost named = current.radio();
                    let arrived: Option<Arrived> = match current.into_taken() {
                        (Some((dlci, bytes)), name) => Some(
                            Arrived { origin_uri: origin_on(name.as_str(), dlci / 2), bytes },
                        ),
                        (None, _) => None,
                    };
                    let reception: Reception = Reception::Over(arrived);
                    proof {
                        assert(reception_of(end, named) == Ok::<ReceptionView, Error>(
                            reception@,
                        ));
                    }
                    return Ok(reception);
                },
                Ok(false) => {},
                Err(error) => {
                    return Err(error);
                },
            }
            turn = turn + 1;
        }
        let ghost named = current.radio();
        let reception: Reception = Reception::More(current);
        proof {
            let end = Ok::<ServedView, Error>(ServedView::More { serving: current@ });
            assert(reception_of(end, named) == Ok::<ReceptionView, Error>(reception@));
        }
        Ok(reception)
    }

    /// One turn of serving: wait for a packet, handle it and answer it; whether
    /// serving is over.
    fn turn(&mut self, serving: &mut Serving) -> (served: Result<bool, Error>)
        requires
            old(self).radio.wf(),
        ensures
            final(self).radio.wf(),
            final(self).same_but_radio(*old(self)),
            old(self).radio.log().is_prefix_of(final(self).radio.log()),
            server::serves(
                old(serving)@,
                1,
                old(self).timeout,
                client::since(old(self).radio.log(), final(self).radio.log()),
                turn_end(served, final(serving)@),
            ),
            old(self).radio.names().is_prefix_of(final(self).radio.names()),
            served is Ok ==> server::names_since(
                old(self).radio.names(),
                final(self).radio.names(),
            ).len() == client::since(old(self).radio.log(), final(self).radio.log()).len(),
            served is Ok ==> final(serving).radio() == server::radio_since(
                old(serving).radio(),
                old(serving)@,
                1,
                client::since(old(self).radio.log(), final(self).radio.log()),
                server::names_since(old(self).radio.names(), final(self).radio.names()),
            ),
    {
        let ghost timeout = self.timeout;
        let ghost before = self.radio.log();
        let ghost called = self.radio.names();
        let ghost held = serving@;
        let ghost radio = serving.radio();
        let packet: Vec<u8> = match self.radio.receive(self.timeout) {
            Ok(Some(packet)) => packet,
            Ok(None) => {
                if serving.has_taken() || !serving.has_begun() {
                    return Ok(true);
                }
                return Err(Error::WentQuiet);
            },
            Err(error) => return Err(error),
        };
        let (answers, delivered, closed): (Vec<Vec<u8>>, bool, bool) = match serving.hear(
            packet.as_slice(),
        ) {
            Ok(said) => said,
            Err(error) => return Err(error),
        };
        let ghost heard = self.radio.log();
        let outcome: Result<(), Error> = self.answer(&answers);
        proof {
            let came = Event::Received { timeout, received: Ok(Some(packet@)) };
            let answering = client::since(heard, self.radio.log());
            server::lemma_serves_one(held, timeout, packet@, answering, outcome);
            assert(heard == before.push(came));
            assert(self.radio.log() =~= heard + answering);
            assert(client::since(before, self.radio.log()) =~= seq![came] + answering);
        }
        if let Err(error) = outcome {
            return Err(error);
        }
        if delivered {
            serving.delivered_on(self.radio.name());
        }
        proof {
            let events = client::since(before, self.radio.log());
            let names = server::names_since(called, self.radio.names());
            let (next, said) = held.session.handled(packet@);
            let response = said->Ok_0;
            assert(events[0] == (Event::Received { timeout, received: Ok(Some(packet@)) }));
            assert(names.len() == response.answers.len() + 1);
            assert(names.last() == self.radio.called());
            reveal_with_fuel(server::radio_since, 2);
            assert(serving.radio() == server::radio_since(radio, held, 1, events, names));
        }
        Ok(closed)
    }

    /// Transmit answers in order, up to the first that the link refuses.
    fn answer(&mut self, answers: &Vec<Vec<u8>>) -> (outcome: Result<(), Error>)
        requires
            old(self).radio.wf(),
        ensures
            final(self).radio.wf(),
            final(self).same_but_radio(*old(self)),
            old(self).radio.log().is_prefix_of(final(self).radio.log()),
            outcome is Ok ==> final(self).radio.log().len() == old(self).radio.log().len()
                + answers@.len(),
            outcome is Ok ==> server::tells(
                session::packets_view(answers@),
                client::since(old(self).radio.log(), final(self).radio.log()),
                Ok(()),
            ),
            outcome is Err ==> server::tells(
                session::packets_view(answers@),
                client::since(old(self).radio.log(), final(self).radio.log()),
                outcome,
            ),
            old(self).radio.names().is_prefix_of(final(self).radio.names()),
            outcome is Ok ==> final(self).radio.names().len() == old(self).radio.names().len()
                + answers@.len(),
            old(self).radio.names().len() > 0 && old(self).radio.names().last()
                == old(self).radio.called() ==> final(self).radio.names().last()
                == final(self).radio.called(),
    {
        let ghost start = self.radio.log();
        let ghost told = session::packets_view(answers@);
        proof {
            assert(client::since(start, start) =~= Seq::empty());
            assert(told.take(0) =~= Seq::empty());
        }
        for at in 0..answers.len()
            invariant
                self.radio.wf(),
                self.same_but_radio(*old(self)),
                start == old(self).radio.log(),
                start.is_prefix_of(self.radio.log()),
                told == session::packets_view(answers@),
                self.radio.log().len() == start.len() + at,
                old(self).radio.names().is_prefix_of(self.radio.names()),
                self.radio.names().len() == old(self).radio.names().len() + at,
                old(self).radio.names().len() > 0 && old(self).radio.names().last()
                    == old(self).radio.called() ==> self.radio.names().last()
                    == self.radio.called(),
                server::tells(told.take(at as int), client::since(start, self.radio.log()), Ok(())),
        {
            let ghost log = self.radio.log();
            let outcome: Result<(), Error> = self.radio.transmit(answers[at].as_slice());
            proof {
                server::lemma_tells_next(
                    told,
                    at as int,
                    client::since(start, log),
                    outcome,
                );
                assert(client::since(start, self.radio.log()) =~= client::since(start, log).push(
                    Event::Transmitted { packet: told[at as int], outcome },
                ));
            }
            if outcome.is_err() {
                return outcome;
            }
        }
        proof {
            assert(told.take(told.len() as int) =~= told);
        }
        Ok(())
    }
}

impl BluetoothTransport<LoopbackRadio> {
    /// Both ends on one in-process link: a client on server channel 3 and
    /// the server that answers it, `timeout` on the client.
    #[must_use]
    pub fn loopback(timeout: Duration) -> (transport: BluetoothTransport<LoopbackRadio>)
        ensures
            transport.radio.wf(),
            transport.radio@ == LoopbackView::fresh(),
            transport.radio.log() == Seq::<Event>::empty(),
            transport.channel == LOOPBACK_CHANNEL,
            transport.timeout == timeout,
    {
        BluetoothTransport::new(LoopbackRadio::new(), LOOPBACK_CHANNEL).timing_out_after(timeout)
    }

    /// Send over the loopback, to the server channel that `named` names or to
    /// the transport's own. While nobody is connected, every Stream on a
    /// server channel arrives whole at the far end, and what went well leaves
    /// nobody connected.
    pub fn send_to(&mut self, named: Option<&str>, payload: &[u8]) -> (outcome: Result<(), Error>)
        requires
            old(self).radio.wf(),
        ensures
            final(self).radio.wf(),
            final(self).same_but_radio(*old(self)),
            match channel_of(named, old(self).channel) {
                None => {
                    &&& *final(self) == *old(self)
                    &&& outcome matches Err(Error::NotServerChannel(text))
                    &&& text@ == named->0@
                },
                Some(channel) => {
                    &&& old(self).radio.log().is_prefix_of(final(self).radio.log())
                    &&& client::sends(
                        channel,
                        payload@,
                        old(self).timeout,
                        client::since(old(self).radio.log(), final(self).radio.log()),
                        outcome,
                    )
                    &&& (old(self).radio@.idle() && outcome is Ok) ==> final(self).radio@.idle()
                    &&& (old(self).radio@.idle() && 1 <= channel % 128 <= 30) ==> {
                        &&& outcome is Ok
                        &&& final(self).radio@ == (LoopbackView {
                            arrived: old(self).radio@.arrived.push(
                                (client::dlci_of(channel), payload@),
                            ),
                            ..old(self).radio@
                        })
                    }
                },
            },
    {
        let ghost before = self.radio@;
        let ghost log = self.radio.log();
        let outcome: Result<(), Error> = self.send(named, payload);
        proof {
            if let Some(channel) = channel_of(named, old(self).channel) {
                let events = client::since(log, self.radio.log());
                assert(self.radio.log() =~= log + events);
                radio::lemma_after_all_append(LoopbackView::fresh(), log, events);
                if let Ok(nothing) = outcome {
                    assert(nothing == ());
                    if before.idle() {
                        conversation::law_sending_leaves_the_loopback_idle(
                            before,
                            channel,
                            payload@,
                            old(self).timeout,
                            events,
                        );
                    }
                }
                if before.idle() && 1 <= channel % 128 <= 30 {
                    conversation::law_loopback_returns_the_stream(
                        before,
                        channel,
                        payload@,
                        old(self).timeout,
                        events,
                        outcome,
                    );
                }
            }
        }
        outcome
    }

    /// The next Stream that arrived at the far end of the loopback, with its
    /// origin; it is an error that no data link closed.
    pub fn take_arrived(&mut self) -> (arrived: Result<Arrived, Error>)
        requires
            old(self).radio.wf(),
        ensures
            final(self).radio.wf(),
            final(self).same_but_radio(*old(self)),
            final(self).radio@ == old(self).radio@.collected().0,
            final(self).radio.log() == old(self).radio.log().push(
                Event::Collected { stream: old(self).radio@.collected().1 },
            ),
            crate::error::viewed(arrived) == (match old(self).radio@.collected().1 {
                Some(stream) => Ok(arrived_of(stream, "loopback"@)),
                None => Err(Error::NoDataLink),
            }),
    {
        match self.radio.take() {
            Some((dlci, bytes)) => Ok(Arrived { origin_uri: self.origin(dlci / 2), bytes }),
            None => Err(Error::NoDataLink),
        }
    }
}

/// Where one turn of serving ends.
pub open spec fn turn_end(served: Result<bool, Error>, serving: ServingView) -> Result<
    ServedView,
    Error,
> {
    match served {
        Err(error) => Err(error),
        Ok(over) => if over {
            Ok(ServedView::Over { stream: serving.taken })
        } else {
            Ok(ServedView::More { serving })
        },
    }
}

/// What serving a connection came to.
#[derive(Debug)]
pub enum Reception {
    /// It is over: the Stream it delivered, if any.
    Over(Option<Arrived>),
    /// The peer is not done.
    More(Serving),
}

/// What serving a connection came to, by views.
pub enum ReceptionView {
    /// It is over: the Stream it delivered, if any.
    Over(Option<ArrivedView>),
    /// The peer is not done.
    More(ServingView),
}

impl View for Reception {
    type V = ReceptionView;

    open spec fn view(&self) -> ReceptionView {
        match *self {
            Reception::Over(Some(arrived)) => ReceptionView::Over(Some(arrived@)),
            Reception::Over(None) => ReceptionView::Over(None),
            Reception::More(serving) => ReceptionView::More(serving@),
        }
    }
}

/// A Stream that came on a data link of the radio that is called `radio`: its
/// server channel is half its DLCI.
pub open spec fn arrived_of(stream: (u8, Seq<u8>), radio: Seq<char>) -> ArrivedView {
    ArrivedView { origin_uri: origin_of(radio, stream.0 / 2), bytes: stream.1 }
}

/// What serving that ended so comes to, on a radio that is called `radio`.
pub open spec fn reception_of(end: Result<ServedView, Error>, radio: Seq<char>) -> Result<
    ReceptionView,
    Error,
> {
    match end {
        Err(error) => Err(error),
        Ok(ServedView::Over { stream: Some(stream) }) => Ok(
            ReceptionView::Over(Some(arrived_of(stream, radio))),
        ),
        Ok(ServedView::Over { stream: None }) => Ok(ReceptionView::Over(None)),
        Ok(ServedView::More { serving }) => Ok(ReceptionView::More(serving)),
    }
}

/// The number that decimal digits say, read from the left.
pub open spec fn number_of(digits: Seq<char>) -> nat
    decreases digits.len(),
{
    if digits.len() == 0 {
        0
    } else {
        10 * number_of(digits.drop_last()) + (digits.last() as nat - '0' as nat) as nat
    }
}

/// The digits of a number that may have a plus sign in front.
pub open spec fn digits_of(text: Seq<char>) -> Seq<char> {
    if text.len() > 0 && text[0] == '+' {
        text.skip(1)
    } else {
        text
    }
}

/// The server channel that a text says: a decimal number from 1 to 30, a plus
/// sign and zeros in front allowed.
pub open spec fn channel_in(text: Seq<char>) -> Option<u8> {
    let digits = digits_of(text);
    if digits.len() > 0 && (forall|i: int|
        0 <= i < digits.len() ==> '0' <= #[trigger] digits[i] <= '9') && MIN_CHANNEL <= number_of(
        digits,
    ) <= MAX_CHANNEL {
        Some(number_of(digits) as u8)
    } else {
        None
    }
}

/// The server channel to send to: the one `named` says, the transport's own
/// where it says nothing, and none where it says something else.
pub open spec fn channel_of(named: Option<&str>, own: u8) -> Option<u8> {
    match named {
        Some(text) => if text@.len() > 0 {
            channel_in(text@)
        } else {
            Some(own)
        },
        None => Some(own),
    }
}

/// The server channel to send to: the one `named` says, or `own` where it says
/// nothing. A text that is no server channel is refused.
pub fn server_channel(named: Option<&str>, own: u8) -> (channel: Result<u8, Error>)
    ensures
        match channel_of(named, own) {
            Some(chosen) => channel == Ok::<u8, Error>(chosen),
            None => {
                &&& channel matches Err(Error::NotServerChannel(text))
                &&& text@ == named->0@
            },
        },
{
    match named {
        Some(text) => if text.unicode_len() > 0 {
            match read_channel(text) {
                Some(channel) => Ok(channel),
                None => Err(Error::NotServerChannel(text.to_owned())),
            }
        } else {
            Ok(own)
        },
        None => Ok(own),
    }
}

/// More digits say no smaller a number.
proof fn lemma_number_grows(digits: Seq<char>, length: int)
    requires
        0 <= length <= digits.len(),
    ensures
        number_of(digits.take(length)) <= number_of(digits),
    decreases digits.len() - length,
{
    if length == digits.len() {
        assert(digits.take(length) =~= digits);
    } else {
        lemma_number_grows(digits, length + 1);
        assert(digits.take(length + 1).drop_last() =~= digits.take(length));
    }
}

fn read_channel(text: &str) -> (channel: Option<u8>)
    requires
        text@.len() > 0,
    ensures
        channel == channel_in(text@),
{
    let length: usize = text.unicode_len();
    let sign: usize = if text.get_char(0) == '+' {
        1
    } else {
        0
    };
    let ghost digits = digits_of(text@);
    if length == sign {
        return None;
    }
    let mut number: u32 = 0;
    let mut at: usize = sign;
    while at < length
        invariant
            length == text@.len(),
            sign <= at <= length,
            sign <= 1,
            digits == text@.skip(sign as int),
            digits == digits_of(text@),
            forall|i: int| 0 <= i < at - sign ==> '0' <= #[trigger] digits[i] <= '9',
            number == number_of(digits.take(at - sign)),
            number <= MAX_CHANNEL,
        decreases length - at,
    {
        let digit: char = text.get_char(at);
        proof {
            assert(digit == digits[at - sign]);
            assert(digits.take(at - sign + 1).drop_last() =~= digits.take(at - sign));
        }
        if digit < '0' || digit > '9' {
            return None;
        }
        number = 10 * number + (digit as u32 - '0' as u32);
        if number > MAX_CHANNEL as u32 {
            proof {
                lemma_number_grows(digits, at - sign + 1);
            }
            return None;
        }
        at = at + 1;
    }
    proof {
        assert(digits.take(digits.len() as int) =~= digits);
    }
    if number < MIN_CHANNEL as u32 {
        return None;
    }
    Some(number as u8)
}

/// The channel in an origin names the channel it was written for: every server
/// channel, in decimal, reads back.
pub proof fn law_channel_reads_back(channel: u8)
    requires
        MIN_CHANNEL <= channel <= MAX_CHANNEL,
    ensures
        channel_in(text::decimal_of(channel as nat)) == Some(channel),
{
    let text = text::decimal_of(channel as nat);
    reveal_with_fuel(text::decimal_of, 2);
    reveal_with_fuel(number_of, 3);
    if channel < 10 {
        assert(text.drop_last() =~= Seq::empty());
    } else {
        assert(text.drop_last() =~= seq![text::digit_of(channel as int / 10)]);
        assert(text.drop_last().drop_last() =~= Seq::empty());
    }
}

/// A Stream that was written on a channel arrives from that channel.
pub proof fn law_arrival_names_its_channel(channel: u8, bytes: Seq<u8>, radio: Seq<char>)
    requires
        channel < 128,
    ensures
        arrived_of((client::dlci_of(channel), bytes), radio) == (ArrivedView {
            origin_uri: origin_of(radio, channel),
            bytes,
        }),
{
}

/// An origin, place by place: `bt://`, the radio's name whole, a slash, and the
/// channel in decimal.
pub proof fn law_origin_place_by_place(radio: Seq<char>, channel: u8)
    ensures
        ({
            let origin = origin_of(radio, channel);
            let digits = text::decimal_of(channel as nat);
            let end = 5 + radio.len() as int;
            &&& origin.len() == 6 + radio.len() + digits.len()
            &&& origin.take(5) == seq!['b', 't', ':', '/', '/']
            &&& origin.subrange(5, end) == radio
            &&& origin[end] == '/'
            &&& origin.skip(end + 1) == digits
        }),
{
    let origin = origin_of(radio, channel);
    let end = 5 + radio.len() as int;
    reveal_strlit("bt://");
    reveal_strlit("/");
    assert(origin.take(5) =~= seq!['b', 't', ':', '/', '/']);
    assert(origin.subrange(5, end) =~= radio);
    assert(origin.skip(end + 1) =~= text::decimal_of(channel as nat));
}

/// Two radios with different names have different origins, and so have two
/// channels of one radio.
pub proof fn law_origins_tell_apart(one: Seq<char>, other: Seq<char>, first: u8, second: u8)
    ensures
        one != other ==> origin_of(one, first) != origin_of(other, first),
        first != second ==> origin_of(one, first) != origin_of(one, second),
{
    law_origin_place_by_place(one, first);
    law_origin_place_by_place(other, first);
    law_origin_place_by_place(one, second);
    if origin_of(one, first) == origin_of(other, first) {
        assert(one.len() == other.len());
        assert(one =~= other);
    }
    if origin_of(one, first) == origin_of(one, second) {
        assert(text::decimal_of(first as nat) == text::decimal_of(second as nat));
        text::law_decimals_tell_apart(first as nat, second as nat);
    }
}

/// An arrival is the Stream's own bytes, whole, from the origin of the radio and
/// of half its data link.
pub proof fn law_arrival_is_the_stream(dlci: u8, bytes: Seq<u8>, radio: Seq<char>)
    ensures
        arrived_of((dlci, bytes), radio).bytes == bytes,
        arrived_of((dlci, bytes), radio).origin_uri == origin_of(radio, dlci / 2),
{
}

/// What serving comes to is what it ended with: its error, the Stream with the
/// name that goes with it, none where there is none, or the connection to go on
/// with.
pub proof fn law_reception_is_what_serving_ended_with(
    end: Result<ServedView, Error>,
    radio: Seq<char>,
)
    ensures
        match end {
            Err(error) => reception_of(end, radio) == Err::<ReceptionView, Error>(error),
            Ok(ServedView::More { serving }) => reception_of(end, radio) == Ok::<
                ReceptionView,
                Error,
            >(ReceptionView::More(serving)),
            Ok(ServedView::Over { stream: None }) => reception_of(end, radio) == Ok::<
                ReceptionView,
                Error,
            >(ReceptionView::Over(None)),
            Ok(ServedView::Over { stream: Some(stream) }) => {
                &&& reception_of(end, radio) matches Ok(ReceptionView::Over(Some(arrived)))
                &&& arrived.bytes == stream.1
                &&& arrived.origin_uri == origin_of(radio, stream.0 / 2)
            },
        },
{
}

/// What the views of an arrival and of a reception hold is what they hold.
pub proof fn law_reception_view_is_plain(arrived: Arrived, serving: Serving)
    ensures
        arrived@.origin_uri == arrived.origin_uri@,
        arrived@.bytes == arrived.bytes@,
        Reception::Over(None)@ == ReceptionView::Over(None),
        Reception::Over(Some(arrived))@ == ReceptionView::Over(Some(arrived@)),
        Reception::More(serving)@ == ReceptionView::More(serving@),
{
}

/// A number in decimal with zeros in front.
pub open spec fn padded(zeros: nat, n: nat) -> Seq<char> {
    Seq::new(zeros, |i: int| '0') + text::decimal_of(n)
}

/// Digits that say 0 are all zeros.
proof fn lemma_zero_is_zeros(digits: Seq<char>)
    requires
        forall|i: int| 0 <= i < digits.len() ==> '0' <= #[trigger] digits[i] <= '9',
        number_of(digits) == 0,
    ensures
        digits == Seq::new(digits.len(), |i: int| '0'),
    decreases digits.len(),
{
    if digits.len() > 0 {
        let fewer = digits.drop_last();
        assert forall|i: int| 0 <= i < fewer.len() implies '0' <= #[trigger] fewer[i] <= '9' by {
            assert(fewer[i] == digits[i]);
        }
        assert(digits[digits.len() - 1] == digits.last());
        lemma_zero_is_zeros(fewer);
        assert(digits =~= fewer.push('0'));
        assert(digits =~= Seq::new(digits.len(), |i: int| '0'));
    } else {
        assert(digits =~= Seq::new(digits.len(), |i: int| '0'));
    }
}

/// Digits that say a number are the number in decimal with zeros in front.
proof fn lemma_digits_are_padded(digits: Seq<char>) -> (zeros: nat)
    requires
        forall|i: int| 0 <= i < digits.len() ==> '0' <= #[trigger] digits[i] <= '9',
        number_of(digits) > 0,
    ensures
        digits == padded(zeros, number_of(digits)),
    decreases digits.len(),
{
    let n = number_of(digits);
    let fewer = digits.drop_last();
    let last = digits.last();
    let tens = number_of(fewer);
    assert forall|i: int| 0 <= i < fewer.len() implies '0' <= #[trigger] fewer[i] <= '9' by {
        assert(fewer[i] == digits[i]);
    }
    assert(digits[digits.len() - 1] == last);
    assert(n / 10 == tens && text::digit_of((n % 10) as int) == last);
    if tens == 0 {
        lemma_zero_is_zeros(fewer);
        assert(text::decimal_of(n) == seq![last]);
        assert(digits =~= padded(fewer.len(), n));
        fewer.len()
    } else {
        let zeros = lemma_digits_are_padded(fewer);
        assert(text::decimal_of(n) == text::decimal_of(tens).push(last));
        assert(padded(zeros, n) =~= padded(zeros, tens).push(last));
        assert(digits =~= fewer.push(last));
        zeros
    }
}

/// Decimal digits say the number they were written for, zeros in front or not.
proof fn lemma_padded_says_its_number(zeros: nat, n: nat)
    ensures
        number_of(padded(zeros, n)) == n,
        padded(zeros, n).len() > 0,
        forall|i: int|
            0 <= i < padded(zeros, n).len() ==> '0' <= #[trigger] padded(zeros, n)[i] <= '9',
    decreases n, zeros,
{
    let digits = padded(zeros, n);
    let fewer = digits.drop_last();
    if n >= 10 {
        lemma_padded_says_its_number(zeros, n / 10);
        assert(fewer =~= padded(zeros, n / 10));
        assert(digits =~= fewer.push(text::digit_of((n % 10) as int)));
    } else if zeros > 0 {
        lemma_padded_says_its_number((zeros - 1) as nat, 0);
        assert(fewer =~= padded((zeros - 1) as nat, 0));
        assert(digits =~= fewer.push(text::digit_of(n as int)));
    } else {
        assert(fewer =~= Seq::empty());
        assert(digits =~= seq![text::digit_of(n as int)]);
        reveal_with_fuel(number_of, 2);
    }
}

/// Which texts name a server channel, and which: the numbers from 1 to 30 in
/// decimal, zeros in front or not, a plus sign before that or not, and no other
/// text.
pub proof fn law_text_is_a_channel_exactly_when(text: Seq<char>, channel: u8)
    ensures
        channel_in(text) == Some(channel) <==> 1 <= channel <= 30 && exists|zeros: nat|
            text == #[trigger] padded(zeros, channel as nat) || text == seq!['+'] + padded(
                zeros,
                channel as nat,
            ),
{
    let digits = digits_of(text);
    if channel_in(text) == Some(channel) {
        let zeros = lemma_digits_are_padded(digits);
        let plain = padded(zeros, channel as nat);
        assert(digits == plain);
        if text.len() > 0 && text[0] == '+' {
            assert(text =~= seq!['+'] + plain);
        }
        assert(text == plain || text == seq!['+'] + plain);
    }
    if 1 <= channel <= 30 && exists|zeros: nat|
        text == #[trigger] padded(zeros, channel as nat) || text == seq!['+'] + padded(
            zeros,
            channel as nat,
        ) {
        let zeros = choose|zeros: nat|
            text == #[trigger] padded(zeros, channel as nat) || text == seq!['+'] + padded(
                zeros,
                channel as nat,
            );
        let plain = padded(zeros, channel as nat);
        lemma_padded_says_its_number(zeros, channel as nat);
        if text == plain {
            assert('0' <= plain[0] <= '9');
            assert(digits == plain);
        } else {
            assert((seq!['+'] + plain).skip(1) =~= plain);
            assert(digits == plain);
        }
    }
}

/// The channel sent to is the transport's own where none is named or the name is
/// empty, and otherwise the one named, if the text is a channel at all.
pub proof fn law_named_channel_overrides(named: Option<&str>, own: u8)
    ensures
        named is None ==> channel_of(named, own) == Some(own),
        named is Some && named->0@.len() == 0 ==> channel_of(named, own) == Some(own),
        named is Some && named->0@.len() > 0 ==> channel_of(named, own) == channel_in(named->0@),
{
}

/// What only uses the radio keeps the channel and the timeout.
pub proof fn law_same_but_radio_keeps_the_rest<R: Radio>(
    one: BluetoothTransport<R>,
    other: BluetoothTransport<R>,
)
    ensures
        one.same_but_radio(other) <==> one.channel == other.channel && one.timeout == other.timeout,
{
}

} // verus!
