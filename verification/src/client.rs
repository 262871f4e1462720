//! What a client says to write one Stream, and what it makes of the answers:
//! the steps of a connection, and the traces a radio sees of them.

use crate::error::Error;
use crate::l2cap;
use crate::l2cap::Signal;
use crate::packet;
use crate::radio::Event;
use crate::rfcomm;
use crate::rfcomm::Control;
use crate::session;
use std::time::Duration;
use vstd::prelude::*;

verus! {

/// The answer a client waits for once it has said something.
pub enum Due {
    /// None: data is not acknowledged.
    Nothing,
    /// UA on an RFCOMM data link.
    Acknowledgement { dlci: u8 },
    /// A disconnection response.
    Disconnection,
}

/// One thing a client says, or why it cannot be said, and the answer that is
/// due.
pub struct Step {
    pub packet: Result<Seq<u8>, Error>,
    pub due: Due,
}

/// The data link connection identifier of a server channel: twice the
/// channel, in eight bits.
pub open spec fn dlci_of(channel: u8) -> u8 {
    (2 * (channel % 128)) as u8
}

/// How many UIH frames carry `length` bytes.
pub open spec fn piece_count(length: nat) -> nat {
    (length + rfcomm::N1 - 1) as nat / rfcomm::N1 as nat
}

/// Piece `at` of a Stream that is written in frames of N1 bytes.
pub open spec fn piece(bytes: Seq<u8>, at: int) -> Seq<u8> {
    bytes.subrange(
        rfcomm::N1 * at,
        if rfcomm::N1 * (at + 1) <= bytes.len() {
            rfcomm::N1 * (at + 1)
        } else {
            bytes.len() as int
        },
    )
}

/// A Stream in pieces of N1 bytes, the last one what is left. An empty Stream
/// has none.
pub open spec fn pieces(bytes: Seq<u8>) -> Seq<Seq<u8>> {
    Seq::new(piece_count(bytes.len()), |at: int| piece(bytes, at))
}

/// The request for a channel to RFCOMM.
pub open spec fn connection_request() -> Signal {
    Signal::ConnectionRequest {
        identifier: 1,
        psm: l2cap::RFCOMM_PSM,
        source: l2cap::FIRST_DYNAMIC,
    }
}

/// The request that closes the channel `remote`.
pub open spec fn disconnection_request(remote: u16) -> Signal {
    Signal::DisconnectionRequest {
        identifier: 2,
        destination: remote,
        source: l2cap::FIRST_DYNAMIC,
    }
}

/// A command on a data link, which UA is due to.
pub open spec fn command_step(remote: u16, dlci: u8, control: Control) -> Step {
    Step {
        packet: packet::rfcomm_packet(remote, dlci, control, Seq::empty()),
        due: Due::Acknowledgement { dlci },
    }
}

/// A piece of a Stream on a data link.
pub open spec fn data_step(remote: u16, dlci: u8, piece: Seq<u8>) -> Step {
    Step {
        packet: packet::rfcomm_packet(remote, dlci, Control::Uih, piece),
        due: Due::Nothing,
    }
}

/// The request that closes the channel, which a disconnection response is due
/// to.
pub open spec fn disconnection_step(remote: u16) -> Step {
    Step {
        packet: Ok(packet::signal_packet(disconnection_request(remote))),
        due: Due::Disconnection,
    }
}

/// What opens the multiplexer and the data link.
pub open spec fn opening_steps(remote: u16, dlci: u8) -> Seq<Step> {
    seq![command_step(remote, 0, Control::Sabm), command_step(remote, dlci, Control::Sabm)]
}

/// What carries a Stream.
pub open spec fn data_steps(remote: u16, dlci: u8, bytes: Seq<u8>) -> Seq<Step> {
    pieces(bytes).map_values(|piece: Seq<u8>| data_step(remote, dlci, piece))
}

/// What closes the data link, the multiplexer and the channel.
pub open spec fn closing_steps(remote: u16, dlci: u8) -> Seq<Step> {
    seq![
        command_step(remote, dlci, Control::Disc),
        command_step(remote, 0, Control::Disc),
        disconnection_step(remote),
    ]
}

/// All a client says once the channel is open at `remote`: it starts the
/// multiplexer, opens the data link, writes the Stream, and closes the link,
/// the multiplexer and the channel.
pub open spec fn steps(remote: u16, dlci: u8, bytes: Seq<u8>) -> Seq<Step> {
    opening_steps(remote, dlci) + data_steps(remote, dlci, bytes) + closing_steps(remote, dlci)
}

/// The answer in what was received: a peer that was not heard is an error.
pub open spec fn answer_of(received: Result<Option<Seq<u8>>, Error>) -> Result<Seq<u8>, Error> {
    match received {
        Ok(Some(answer)) => Ok(answer),
        Ok(None) => Err(Error::NoAnswer),
        Err(error) => Err(error),
    }
}

/// The signal in an answer, whatever channel it came on.
pub open spec fn signal_in(answer: Seq<u8>) -> Result<Signal, Error> {
    match l2cap::frame_of(answer) {
        Err(error) => Err(error),
        Ok(outer) => l2cap::signal_of(outer.payload),
    }
}

/// Whether an answer is the one that is due, or what is wrong with it.
pub open spec fn accepts(due: Due, answer: Seq<u8>) -> Result<(), Error> {
    match due {
        Due::Nothing => Ok(()),
        Due::Acknowledgement { dlci } => match l2cap::frame_of(answer) {
            Err(error) => Err(error),
            Ok(outer) => match rfcomm::frame_of(outer.payload) {
                Err(error) => Err(error),
                Ok(frame) => match frame.control {
                    Control::Ua => Ok(()),
                    Control::Dm => Err(Error::LinkRefused(dlci)),
                    other => Err(Error::NotUa(other)),
                },
            },
        },
        Due::Disconnection => match signal_in(answer) {
            Err(error) => Err(error),
            Ok(Signal::DisconnectionResponse { .. }) => Ok(()),
            Ok(_) => Err(Error::NotDisconnectionResponse),
        },
    }
}

/// The server's identifier for the channel in its answer to the connection
/// request, or what is wrong with the answer.
pub open spec fn connected_to(answer: Seq<u8>) -> Result<u16, Error> {
    match signal_in(answer) {
        Err(error) => Err(error),
        Ok(Signal::ConnectionResponse { destination, result, .. }) => if result == l2cap::SUCCESS {
            Ok(destination)
        } else {
            Err(Error::ChannelRefused(result))
        },
        Ok(_) => Err(Error::NotConnectionResponse),
    }
}

/// The events of a packet that an answer is due to: it was transmitted, and
/// unless the link refused it, an answer was waited for once.
pub open spec fn exchanges(packet: Seq<u8>, timeout: Duration, events: Seq<Event>) -> bool {
    &&& events.len() >= 1
    &&& events[0] matches Event::Transmitted { packet: sent, outcome }
    &&& sent == packet
    &&& match outcome {
        Err(_) => events.len() == 1,
        Ok(_) => {
            &&& events.len() == 2
            &&& events[1] matches Event::Received { timeout: waited, .. }
            &&& waited == timeout
        },
    }
}

/// The answer in the events of an exchange, or why there is none.
pub open spec fn answer_in(events: Seq<Event>) -> Result<Seq<u8>, Error> {
    match events[0] {
        Event::Transmitted { outcome: Err(error), .. } => Err(error),
        _ => match events[1] {
            Event::Received { received, .. } => answer_of(received),
            _ => Err(Error::NoAnswer),
        },
    }
}

/// The events of one step that went as `outcome` says: what cannot be said is
/// not, what no answer is due to is only transmitted, and any other answer
/// decides.
pub open spec fn plays_step(
    step: Step,
    timeout: Duration,
    events: Seq<Event>,
    outcome: Result<(), Error>,
) -> bool {
    match step.packet {
        Err(error) => events.len() == 0 && outcome == Err::<(), Error>(error),
        Ok(packet) => match step.due {
            Due::Nothing => events == seq![Event::Transmitted { packet, outcome }],
            due => {
                &&& exchanges(packet, timeout, events)
                &&& outcome == (match answer_in(events) {
                    Err(error) => Err(error),
                    Ok(answer) => accepts(due, answer),
                })
            },
        },
    }
}

/// How many events a step that goes well makes.
pub open spec fn event_count(step: Step) -> int {
    if step.due is Nothing {
        1
    } else {
        2
    }
}

/// The events of steps taken in order, up to the first that fails; the
/// outcome is its error, or success where none does.
pub open spec fn plays(
    steps: Seq<Step>,
    timeout: Duration,
    events: Seq<Event>,
    outcome: Result<(), Error>,
) -> bool
    decreases steps.len(),
{
    if steps.len() == 0 {
        events.len() == 0 && outcome is Ok
    } else {
        ||| outcome is Err && plays_step(steps[0], timeout, events, outcome)
        ||| {
            let count = event_count(steps[0]);
            &&& events.len() >= count
            &&& plays_step(steps[0], timeout, events.take(count), Ok(()))
            &&& plays(steps.skip(1), timeout, events.skip(count), outcome)
        }
    }
}

/// The server's identifier for the channel in the events of the connection
/// request, or why there is none.
pub open spec fn remote_in(events: Seq<Event>) -> Result<u16, Error> {
    match answer_in(events) {
        Err(error) => Err(error),
        Ok(answer) => connected_to(answer),
    }
}

/// The events of writing `bytes` as one data link connection on server
/// channel `channel`, and how it went: the channel is opened, and then the
/// steps are taken on the identifier the server gave.
pub open spec fn sends(
    channel: u8,
    bytes: Seq<u8>,
    timeout: Duration,
    events: Seq<Event>,
    outcome: Result<(), Error>,
) -> bool {
    let opening = if events.len() < 2 {
        events
    } else {
        events.take(2)
    };
    &&& exchanges(packet::signal_packet(connection_request()), timeout, opening)
    &&& match remote_in(opening) {
        Err(error) => events.len() == opening.len() && outcome == Err::<(), Error>(error),
        Ok(remote) => plays(
            steps(remote, dlci_of(channel), bytes),
            timeout,
            events.skip(2),
            outcome,
        ),
    }
}

/// What a log has gained since it was `before`.
pub open spec fn since(before: Seq<Event>, log: Seq<Event>) -> Seq<Event> {
    log.skip(before.len() as int)
}

/// The pieces of a Stream, put together, are the Stream; none is empty, and
/// none is more than a UIH frame carries.
pub proof fn law_pieces_are_the_stream(bytes: Seq<u8>)
    ensures
        session::joined(pieces(bytes)) == bytes,
        forall|at: int|
            0 <= at < pieces(bytes).len() ==> 1 <= (#[trigger] pieces(bytes)[at]).len()
                <= rfcomm::N1,
        bytes.len() == 0 ==> pieces(bytes).len() == 0,
{
    lemma_pieces_joined(bytes, pieces(bytes).len() as int);
    assert(pieces(bytes).take(pieces(bytes).len() as int) =~= pieces(bytes));
    assert(bytes.take(bytes.len() as int) =~= bytes);
}

/// The first `count` pieces put together.
proof fn lemma_pieces_joined(bytes: Seq<u8>, count: int)
    requires
        0 <= count <= pieces(bytes).len(),
    ensures
        session::joined(pieces(bytes).take(count)) == bytes.take(
            if rfcomm::N1 * count <= bytes.len() {
                rfcomm::N1 * count
            } else {
                bytes.len() as int
            },
        ),
    decreases count,
{
    let some = pieces(bytes).take(count);
    if count == 0 {
        assert(some =~= Seq::empty());
        assert(bytes.take(0) =~= Seq::empty());
    } else {
        lemma_pieces_joined(bytes, count - 1);
        assert(some.drop_last() =~= pieces(bytes).take(count - 1));
        assert(some.last() == piece(bytes, count - 1));
        assert(session::joined(some) =~= bytes.take(
            if rfcomm::N1 * count <= bytes.len() {
                rfcomm::N1 * count
            } else {
                bytes.len() as int
            },
        ));
    }
}

/// Steps that went well, then steps that went as they did.
proof fn lemma_plays_append(
    first: Seq<Step>,
    second: Seq<Step>,
    timeout: Duration,
    before: Seq<Event>,
    events: Seq<Event>,
    outcome: Result<(), Error>,
)
    requires
        plays(first, timeout, before, Ok(())),
        plays(second, timeout, events, outcome),
    ensures
        plays(first + second, timeout, before + events, outcome),
    decreases first.len(),
{
    if first.len() == 0 {
        assert(first + second =~= second);
        assert(before + events =~= events);
    } else {
        let count = event_count(first[0]);
        let all = before + events;
        lemma_plays_append(
            first.skip(1),
            second,
            timeout,
            before.skip(count),
            events,
            outcome,
        );
        assert((first + second).skip(1) =~= first.skip(1) + second);
        assert((first + second)[0] == first[0]);
        assert(all.take(count) =~= before.take(count));
        assert(all.skip(count) =~= before.skip(count) + events);
    }
}

/// Once a step has failed no further step is taken.
proof fn lemma_plays_stopped(
    first: Seq<Step>,
    second: Seq<Step>,
    timeout: Duration,
    events: Seq<Event>,
    outcome: Result<(), Error>,
)
    requires
        plays(first, timeout, events, outcome),
        outcome is Err,
    ensures
        plays(first + second, timeout, events, outcome),
    decreases first.len(),
{
    assert((first + second)[0] == first[0]);
    if !plays_step(first[0], timeout, events, outcome) {
        let count = event_count(first[0]);
        lemma_plays_stopped(first.skip(1), second, timeout, events.skip(count), outcome);
        assert((first + second).skip(1) =~= first.skip(1) + second);
    }
}

/// One more step of several: it goes well and the next is to be taken, or it
/// fails and that is how it all went.
pub(crate) proof fn lemma_plays_next(
    steps: Seq<Step>,
    at: int,
    timeout: Duration,
    start: Seq<Event>,
    before: Seq<Event>,
    log: Seq<Event>,
    outcome: Result<(), Error>,
)
    requires
        0 <= at < steps.len(),
        start.is_prefix_of(before),
        before.is_prefix_of(log),
        plays(steps.take(at), timeout, since(start, before), Ok(())),
        plays_step(steps[at], timeout, since(before, log), outcome),
    ensures
        start.is_prefix_of(log),
        outcome is Ok ==> plays(steps.take(at + 1), timeout, since(start, log), Ok(())),
        outcome is Err ==> plays(steps, timeout, since(start, log), outcome),
{
    let one = seq![steps[at]];
    let events = since(before, log);
    assert(one[0] == steps[at]);
    assert(one.skip(1) =~= Seq::empty());
    if outcome is Ok {
        let nothing: () = outcome->Ok_0;
        assert(nothing == ());
        assert(outcome == Ok::<(), Error>(()));
        assert(events.len() == event_count(steps[at]));
        assert(events.take(event_count(steps[at])) =~= events);
        assert(events.skip(event_count(steps[at])) =~= Seq::empty());
        assert(plays(one.skip(1), timeout, events.skip(event_count(steps[at])), outcome));
    }
    assert(plays(one, timeout, events, outcome));
    assert(since(start, log) =~= since(start, before) + events);
    lemma_plays_append(steps.take(at), one, timeout, since(start, before), events, outcome);
    assert(steps.take(at) + one =~= steps.take(at + 1));
    if outcome is Err {
        lemma_plays_stopped(
            steps.take(at + 1),
            steps.skip(at + 1),
            timeout,
            since(start, log),
            outcome,
        );
        assert(steps.take(at + 1) + steps.skip(at + 1) =~= steps);
    }
}

/// The packets that the link took, in order.
pub open spec fn said(events: Seq<Event>) -> Seq<Seq<u8>>
    decreases events.len(),
{
    if events.len() == 0 {
        Seq::empty()
    } else {
        (match events[0] {
            Event::Transmitted { packet, outcome: Ok(_) } => seq![packet],
            _ => Seq::empty(),
        }) + said(events.skip(1))
    }
}

/// The packets of steps.
pub open spec fn packets_of(steps: Seq<Step>) -> Seq<Seq<u8>> {
    steps.map_values(|step: Step| step.packet->Ok_0)
}

/// Steps that all went well were all said.
proof fn lemma_plays_said(steps: Seq<Step>, timeout: Duration, events: Seq<Event>)
    requires
        plays(steps, timeout, events, Ok(())),
    ensures
        said(events) == packets_of(steps),
        forall|at: int| 0 <= at < steps.len() ==> (#[trigger] steps[at]).packet is Ok,
    decreases steps.len(),
{
    if steps.len() == 0 {
        assert(packets_of(steps) =~= Seq::empty());
    } else {
        let count = event_count(steps[0]);
        let rest = steps.skip(1);
        lemma_plays_said(rest, timeout, events.skip(count));
        assert(events.take(count)[0] == events[0]);
        if count == 2 {
            assert(events.take(count)[1] == events[1]);
            assert(events.skip(1).skip(1) =~= events.skip(2));
            assert(events.skip(1)[0] == events[1]);
            reveal_with_fuel(said, 2);
            assert(Seq::<Seq<u8>>::empty() + said(events.skip(2)) =~= said(events.skip(2)));
        }
        assert(packets_of(steps) =~= seq![steps[0].packet->Ok_0] + packets_of(rest));
        assert forall|at: int|
            0 <= at < steps.len() implies (#[trigger] steps[at]).packet is Ok by {
            if at > 0 {
                assert(steps[at] == rest[at - 1]);
            }
        }
    }
}

/// A Stream that was sent was said in full: the link took the connection
/// request and then every packet of the conversation, in order, each on the
/// channel the server gave, and nothing else.
pub proof fn law_sent_stream_was_said_in_full(
    channel: u8,
    bytes: Seq<u8>,
    timeout: Duration,
    events: Seq<Event>,
)
    requires
        sends(channel, bytes, timeout, events, Ok(())),
    ensures
        remote_in(events.take(2)) matches Ok(remote) && said(events) == seq![
            packet::signal_packet(connection_request()),
        ] + packets_of(steps(remote, dlci_of(channel), bytes)),
{
    let opening = if events.len() < 2 {
        events
    } else {
        events.take(2)
    };
    let request = packet::signal_packet(connection_request());
    let remote = remote_in(opening)->Ok_0;
    let rest = events.skip(2);
    assert(opening[0] == events[0]);
    assert(events.len() >= 2);
    assert(opening[1] == events[1]);
    lemma_plays_said(steps(remote, dlci_of(channel), bytes), timeout, rest);
    assert(events.skip(1).skip(1) =~= rest);
    assert(events.skip(1)[0] == events[1]);
    reveal_with_fuel(said, 2);
    assert(Seq::<Seq<u8>>::empty() + said(rest) =~= said(rest));
    assert(said(events) =~= seq![request] + said(rest));
}

/// How a step went is decided by its events.
proof fn lemma_step_is_decided(
    step: Step,
    timeout: Duration,
    events: Seq<Event>,
    outcome: Result<(), Error>,
)
    requires
        events.len() >= event_count(step),
        plays_step(step, timeout, events.take(event_count(step)), Ok(())),
        plays_step(step, timeout, events, outcome),
    ensures
        outcome is Ok,
{
    let count = event_count(step);
    assert(events.take(count)[0] == events[0]);
    if count == 2 {
        assert(events.take(count)[1] == events[1]);
        assert(events.take(count) =~= events);
    }
}

/// How steps went is decided by what passed over the radio.
proof fn lemma_plays_is_decided(
    steps: Seq<Step>,
    timeout: Duration,
    events: Seq<Event>,
    one: Result<(), Error>,
    other: Result<(), Error>,
)
    requires
        plays(steps, timeout, events, one),
        plays(steps, timeout, events, other),
    ensures
        one is Ok <==> other is Ok,
        one is Err ==> one == other,
    decreases steps.len(),
{
    if steps.len() > 0 {
        let count = event_count(steps[0]);
        if events.len() >= count && plays_step(steps[0], timeout, events.take(count), Ok(())) {
            if plays_step(steps[0], timeout, events, one) {
                lemma_step_is_decided(steps[0], timeout, events, one);
            }
            if plays_step(steps[0], timeout, events, other) {
                lemma_step_is_decided(steps[0], timeout, events, other);
            }
            if plays(steps.skip(1), timeout, events.skip(count), one) && plays(
                steps.skip(1),
                timeout,
                events.skip(count),
                other,
            ) {
                lemma_plays_is_decided(steps.skip(1), timeout, events.skip(count), one, other);
            }
        } else if steps[0].packet is Ok && steps[0].due is Nothing {
            assert(seq![
                Event::Transmitted { packet: steps[0].packet->Ok_0, outcome: one },
            ][0] == seq![
                Event::Transmitted { packet: steps[0].packet->Ok_0, outcome: other },
            ][0]);
        }
    }
}

/// How sending a Stream went is decided by what passed over the radio: the
/// same answers never come to two different outcomes.
pub proof fn law_sending_is_decided(
    channel: u8,
    bytes: Seq<u8>,
    timeout: Duration,
    events: Seq<Event>,
    one: Result<(), Error>,
    other: Result<(), Error>,
)
    requires
        sends(channel, bytes, timeout, events, one),
        sends(channel, bytes, timeout, events, other),
    ensures
        one is Ok <==> other is Ok,
        one is Err ==> one == other,
{
    let opening = if events.len() < 2 {
        events
    } else {
        events.take(2)
    };
    if let Ok(remote) = remote_in(opening) {
        lemma_plays_is_decided(
            steps(remote, dlci_of(channel), bytes),
            timeout,
            events.skip(2),
            one,
            other,
        );
    }
}

/// Nothing is sent on a channel whose data link is reserved.
pub proof fn law_reserved_link_is_never_sent_on(
    channel: u8,
    bytes: Seq<u8>,
    timeout: Duration,
    events: Seq<Event>,
    outcome: Result<(), Error>,
)
    requires
        dlci_of(channel) > rfcomm::MAX_DLCI,
        sends(channel, bytes, timeout, events, outcome),
    ensures
        outcome is Err,
{
    let opening = if events.len() < 2 {
        events
    } else {
        events.take(2)
    };
    if let Ok(nothing) = outcome {
        assert(nothing == ());
        let remote = remote_in(opening)->Ok_0;
        let steps = steps(remote, dlci_of(channel), bytes);
        lemma_plays_said(steps, timeout, events.skip(2));
        assert(steps[1] == command_step(remote, dlci_of(channel), Control::Sabm));
    }
}

/// The data link of a server channel is twice the channel, in eight bits.
pub proof fn law_link_is_twice_its_channel(channel: u8)
    ensures
        dlci_of(channel) == 2 * channel as int % 256,
        channel < 128 ==> dlci_of(channel) == 2 * channel,
{
}

/// A Stream in pieces, place by place: byte `at` is byte `at % 127` of piece
/// `at / 127`, there are as many pieces as that takes, and only the last may
/// have fewer than 127 bytes.
pub proof fn law_pieces_place_by_place(bytes: Seq<u8>, at: int)
    requires
        0 <= at < bytes.len(),
    ensures
        ({
            let parts = pieces(bytes);
            &&& 127 * (parts.len() - 1) < bytes.len() <= 127 * parts.len()
            &&& parts[at / 127].len() == (if at / 127 == parts.len() - 1 {
                bytes.len() - 127 * (parts.len() - 1)
            } else {
                127
            })
            &&& parts[at / 127][at % 127] == bytes[at]
        }),
{
}

/// Which answers to the connection request open the channel, and where: a
/// connection response with result 0 opens it at exactly the destination it
/// names, whatever its identifier and source; any other result is refused with
/// that result, any other signal is not the answer, and what cannot be read is
/// refused for what is wrong with it.
pub proof fn law_connected_exactly_when(answer: Seq<u8>)
    ensures
        match l2cap::frame_of(answer) {
            Err(error) => connected_to(answer) == Err::<u16, Error>(error),
            Ok(outer) => match l2cap::signal_of(outer.payload) {
                Err(error) => connected_to(answer) == Err::<u16, Error>(error),
                Ok(Signal::ConnectionResponse { destination, result, .. }) => {
                    &&& result == 0 ==> connected_to(answer) == Ok::<u16, Error>(destination)
                    &&& result != 0 ==> connected_to(answer) == Err::<u16, Error>(
                        Error::ChannelRefused(result),
                    )
                },
                Ok(_) => connected_to(answer) == Err::<u16, Error>(Error::NotConnectionResponse),
            },
        },
{
}

/// The server's identifier for the channel is the one its connection response
/// was written with.
pub proof fn law_connection_response_is_believed(
    identifier: u8,
    destination: u16,
    source: u16,
    result: u16,
)
    ensures
        ({
            let answer = packet::signal_packet(
                Signal::ConnectionResponse { identifier, destination, source, result },
            );
            &&& result == 0 ==> connected_to(answer) == Ok::<u16, Error>(destination)
            &&& result != 0 ==> connected_to(answer) == Err::<u16, Error>(
                Error::ChannelRefused(result),
            )
        }),
{
    packet::law_signal_packet_reads_back(
        Signal::ConnectionResponse { identifier, destination, source, result },
    );
}

/// Which answers acknowledge a command: a frame that reads as UA does, one that
/// reads as DM says that the link is refused, any other frame is told as what it
/// is, and what cannot be read is refused for what is wrong with it.
pub proof fn law_acknowledged_exactly_when(dlci: u8, answer: Seq<u8>)
    ensures
        ({
            let read = accepts(Due::Acknowledgement { dlci }, answer);
            match l2cap::frame_of(answer) {
                Err(error) => read == Err::<(), Error>(error),
                Ok(outer) => match rfcomm::frame_of(outer.payload) {
                    Err(error) => read == Err::<(), Error>(error),
                    Ok(frame) => {
                        &&& read is Ok <==> frame.control is Ua
                        &&& frame.control is Dm ==> read == Err::<(), Error>(
                            Error::LinkRefused(dlci),
                        )
                        &&& !(frame.control is Ua || frame.control is Dm) ==> read == Err::<
                            (),
                            Error,
                        >(Error::NotUa(frame.control))
                    },
                },
            }
        }),
{
}

/// Which answers close the channel: a signal that reads as a disconnection
/// response does, any other signal is not the answer, and what cannot be read is
/// refused for what is wrong with it.
pub proof fn law_disconnected_exactly_when(answer: Seq<u8>)
    ensures
        ({
            let read = accepts(Due::Disconnection, answer);
            match l2cap::frame_of(answer) {
                Err(error) => read == Err::<(), Error>(error),
                Ok(outer) => match l2cap::signal_of(outer.payload) {
                    Err(error) => read == Err::<(), Error>(error),
                    Ok(signal) => {
                        &&& read is Ok <==> signal is DisconnectionResponse
                        &&& read is Err ==> read == Err::<(), Error>(
                            Error::NotDisconnectionResponse,
                        )
                    },
                },
            }
        }),
{
}

/// Where the events of a step begin among those of several steps that go well.
pub open spec fn place(steps: Seq<Step>, at: int) -> int
    decreases at,
{
    if at <= 0 {
        0
    } else {
        place(steps, at - 1) + event_count(steps[at - 1])
    }
}

/// The place after a step's.
proof fn lemma_place_of_next(steps: Seq<Step>, at: int)
    requires
        at >= 0,
    ensures
        place(steps, 0) == 0,
        place(steps, at + 1) == place(steps, at) + event_count(steps[at]),
{
}

/// Places among all steps but the first.
proof fn lemma_place_of_rest(steps: Seq<Step>, at: int)
    requires
        steps.len() > 0,
        0 <= at < steps.len(),
    ensures
        place(steps, at + 1) == event_count(steps[0]) + place(steps.skip(1), at),
    decreases at,
{
    if at > 0 {
        lemma_place_of_rest(steps, at - 1);
        assert(steps.skip(1)[at - 1] == steps[at]);
    } else {
        reveal_with_fuel(place, 2);
    }
}

/// Places go up.
proof fn lemma_places_go_up(steps: Seq<Step>, one: int, other: int)
    requires
        0 <= one <= other,
    ensures
        0 <= place(steps, one) <= place(steps, other),
    decreases other,
{
    if one < other {
        lemma_places_go_up(steps, one, other - 1);
    } else if other > 0 {
        lemma_places_go_up(steps, one - 1, other - 1);
    }
}

/// How a step went.
#[verifier::opaque]
spec fn goes(
    step: Step,
    timeout: Duration,
    events: Seq<Event>,
    outcome: Result<(), Error>,
) -> bool {
    plays_step(step, timeout, events, outcome)
}

/// A step makes no more events than one that goes well.
proof fn lemma_step_has_its_events(
    step: Step,
    timeout: Duration,
    events: Seq<Event>,
    outcome: Result<(), Error>,
)
    requires
        goes(step, timeout, events, outcome),
    ensures
        events.len() <= event_count(step),
{
    reveal(goes);
}

/// Whether step `at` went well with the events in its place.
spec fn went_well(steps: Seq<Step>, timeout: Duration, events: Seq<Event>, at: int) -> bool {
    goes(steps[at], timeout, events.subrange(place(steps, at), place(steps, at + 1)), Ok(()))
}

/// A step that went well among all but the first went well among all.
proof fn lemma_went_well_of_rest(
    steps: Seq<Step>,
    timeout: Duration,
    events: Seq<Event>,
    at: int,
)
    requires
        0 < at < steps.len(),
        event_count(steps[0]) + place(steps.skip(1), at) <= events.len(),
        went_well(steps.skip(1), timeout, events.skip(event_count(steps[0])), at - 1),
    ensures
        went_well(steps, timeout, events, at),
{
    let count = event_count(steps[0]);
    let rest = steps.skip(1);
    lemma_place_of_rest(steps, at - 1);
    lemma_place_of_rest(steps, at);
    lemma_places_go_up(rest, at - 1, at);
    assert(rest[at - 1] == steps[at]);
    assert(events.skip(count).subrange(place(rest, at - 1), place(rest, at)) =~= events.subrange(
        place(steps, at),
        place(steps, at + 1),
    ));
}

/// The events of steps, step by step: those before the one that fails went
/// well, each with its own events, and the one that fails has the rest.
proof fn lemma_plays_step_by_step(
    steps: Seq<Step>,
    timeout: Duration,
    events: Seq<Event>,
    outcome: Result<(), Error>,
) -> (failed: int)
    requires
        plays(steps, timeout, events, outcome),
    ensures
        0 <= failed <= steps.len(),
        outcome is Ok <==> failed == steps.len(),
        0 <= place(steps, failed) <= events.len(),
        failed == steps.len() ==> events.len() == place(steps, failed),
        failed < steps.len() ==> goes(
            steps[failed],
            timeout,
            events.skip(place(steps, failed)),
            outcome,
        ),
        forall|i: int| 0 <= i < failed ==> #[trigger] went_well(steps, timeout, events, i),
    decreases steps.len(),
{
    if steps.len() == 0 {
        0
    } else {
        let count = event_count(steps[0]);
        let rest = steps.skip(1);
        if outcome is Err && plays_step(steps[0], timeout, events, outcome) {
            assert(events.skip(0) =~= events);
            reveal(goes);
            0
        } else {
            let left = events.skip(count);
            assert(goes(steps[0], timeout, events.take(count), Ok(()))) by {
                reveal(goes);
            }
            assert(plays(rest, timeout, left, outcome) && events.len() >= count);
            let later = lemma_plays_step_by_step(rest, timeout, left, outcome);
            let failed = later + 1;
            lemma_place_of_rest(steps, later);
            if later < rest.len() {
                assert(rest[later] == steps[failed]);
                assert(left.skip(place(rest, later)) =~= events.skip(place(steps, failed)));
            }
            assert(went_well(steps, timeout, events, 0)) by {
                lemma_place_of_rest(steps, 0);
                assert(events.subrange(0, count) =~= events.take(count));
            }
            assert forall|i: int| 0 <= i < failed implies #[trigger] went_well(
                steps,
                timeout,
                events,
                i,
            ) by {
                if i > 0 {
                    assert(went_well(rest, timeout, left, i - 1));
                    lemma_places_go_up(rest, i, later);
                    lemma_went_well_of_rest(steps, timeout, events, i);
                }
            }
            failed
        }
    }
}

/// The events of one step: the first says its packet, the second hears the
/// answer, and one that is not the last went well.
proof fn lemma_event_of_step(
    step: Step,
    timeout: Duration,
    events: Seq<Event>,
    outcome: Result<(), Error>,
    at: int,
)
    requires
        goes(step, timeout, events, outcome),
        0 <= at < events.len(),
    ensures
        step.packet is Ok,
        at == 0 ==> says(
            events[at],
            step.packet->Ok_0,
            at + 1 < events.len() || outcome is Ok,
        ),
        at > 0 ==> hears(events[at], step.due, timeout, outcome is Ok),
        at + 1 < events.len() ==> at == 0,
{
    reveal(goes);
    assert(events.len() <= 2);
    if step.due is Nothing {
        assert(events =~= seq![
            Event::Transmitted { packet: step.packet->Ok_0, outcome },
        ]);
        assert(events[0] == (Event::Transmitted { packet: step.packet->Ok_0, outcome }));
    }
}

/// The event in a place among those of several steps: the first of a step's
/// events says its packet, the second hears the answer, and one that is not the
/// last went well.
proof fn lemma_event_in_its_place(
    steps: Seq<Step>,
    timeout: Duration,
    events: Seq<Event>,
    outcome: Result<(), Error>,
    step: int,
    at: int,
)
    requires
        plays(steps, timeout, events, outcome),
        0 <= step < steps.len(),
        place(steps, step) <= at < place(steps, step + 1),
        at < events.len(),
    ensures
        steps[step].packet is Ok,
        at == place(steps, step) ==> says(
            events[at],
            steps[step].packet->Ok_0,
            at + 1 < events.len() || outcome is Ok,
        ),
        at > place(steps, step) ==> hears(
            events[at],
            steps[step].due,
            timeout,
            at + 1 < events.len() || outcome is Ok,
        ),
{
    let failed = lemma_plays_step_by_step(steps, timeout, events, outcome);
    let start = place(steps, step);
    lemma_places_go_up(steps, 0, step);
    if step < failed {
        let end = place(steps, step + 1);
        let own = events.subrange(start, end);
        assert(went_well(steps, timeout, events, step));
        lemma_places_go_up(steps, step + 1, failed);
        assert(own[at - start] == events[at]);
        lemma_event_of_step(steps[step], timeout, own, Ok(()), at - start);
    } else if step == failed {
        let own = events.skip(start);
        assert(own[at - start] == events[at]);
        lemma_event_of_step(steps[step], timeout, own, outcome, at - start);
    } else {
        lemma_places_go_up(steps, failed + 1, step);
        lemma_step_has_its_events(
            steps[failed],
            timeout,
            events.skip(place(steps, failed)),
            outcome,
        );
    }
}

/// Where steps that failed end: a packet that cannot be built has no event, and
/// otherwise the last event is what failed.
proof fn lemma_plays_fails_at_its_end(
    steps: Seq<Step>,
    timeout: Duration,
    events: Seq<Event>,
    error: Error,
) -> (failed: int)
    requires
        plays(steps, timeout, events, Err(error)),
    ensures
        0 <= failed < steps.len(),
        place(steps, failed) <= events.len() <= place(steps, failed + 1),
        events.len() == place(steps, failed) ==> steps[failed].packet == Err::<Seq<u8>, Error>(
            error,
        ),
        events.len() == place(steps, failed) + 1 ==> (events.last() matches Event::Transmitted {
            outcome,
            ..
        } && outcome == Err::<(), Error>(error)),
        events.len() == place(steps, failed) + 2 ==> (events.last() matches Event::Received {
            received,
            ..
        } && match received {
            Err(other) => other == error,
            Ok(None) => error is NoAnswer,
            Ok(Some(answer)) => accepts(steps[failed].due, answer) == Err::<(), Error>(error),
        }),
        events.len() == place(steps, failed) && failed > 0 && !(steps[failed - 1].due is Nothing)
            ==> (events.last() matches Event::Received { received: Ok(Some(answer)), .. }
            && accepts(steps[failed - 1].due, answer) is Ok),
{
    let outcome = Err::<(), Error>(error);
    let failed = lemma_plays_step_by_step(steps, timeout, events, outcome);
    let own = events.skip(place(steps, failed));
    reveal(goes);
    assert(plays_step(steps[failed], timeout, own, outcome));
    if own.len() > 0 {
        assert(own.last() == events.last());
    } else if failed > 0 {
        let before = failed - 1;
        assert(went_well(steps, timeout, events, before));
        lemma_places_go_up(steps, before, failed);
        let held = events.subrange(place(steps, before), place(steps, before + 1));
        assert(held.last() == events.last());
    }
    failed
}

/// Where the events of each step of a conversation begin.
proof fn lemma_conversation_places(remote: u16, dlci: u8, bytes: Seq<u8>, at: int)
    requires
        0 <= at <= pieces(bytes).len(),
    ensures
        ({
            let all = steps(remote, dlci, bytes);
            let count = pieces(bytes).len() as int;
            &&& all.len() == count + 5
            &&& place(all, 0) == 0
            &&& place(all, 1) == 2
            &&& place(all, at + 2) == at + 4
            &&& at == count ==> place(all, count + 3) == count + 6
            &&& at == count ==> place(all, count + 4) == count + 8
            &&& at == count ==> place(all, count + 5) == count + 10
        }),
    decreases at,
{
    let all = steps(remote, dlci, bytes);
    let count = pieces(bytes).len() as int;
    lemma_conversation_steps(remote, dlci, bytes, at - 1);
    lemma_place_of_next(all, 0);
    lemma_place_of_next(all, 1);
    if at > 0 {
        lemma_conversation_places(remote, dlci, bytes, at - 1);
        lemma_place_of_next(all, at + 1);
    }
    if at == count {
        lemma_place_of_next(all, count + 2);
        lemma_place_of_next(all, count + 3);
        lemma_place_of_next(all, count + 4);
    }
}

/// The bytes of the two requests a client makes.
proof fn lemma_request_bytes(remote: u16)
    ensures
        packet::signal_packet(connection_request()) == seq![
            8u8,
            0,
            1,
            0,
            2,
            1,
            4,
            0,
            3,
            0,
            0x40,
            0,
        ],
        packet::signal_packet(disconnection_request(remote)) == seq![
            8u8,
            0,
            1,
            0,
            6,
            2,
            4,
            0,
            (remote % 256) as u8,
            (remote / 256) as u8,
            0x40,
            0,
        ],
{
    let opening = packet::signal_packet(connection_request());
    let closing = packet::signal_packet(disconnection_request(remote));
    packet::law_signal_packet_place_by_place(connection_request());
    packet::law_signal_packet_place_by_place(disconnection_request(remote));
    l2cap::law_signal_place_by_place(connection_request());
    l2cap::law_signal_place_by_place(disconnection_request(remote));
    assert forall|i: int| 0 <= i < 8 implies opening[i + 4] == #[trigger] opening.skip(4)[i]
        && closing[i + 4] == closing.skip(4)[i] by {}
    assert(opening.skip(4)[0] == opening[4] && opening.skip(4)[1] == opening[5]);
    assert(opening.skip(4)[2] == opening[6] && opening.skip(4)[3] == opening[7]);
    assert(opening.skip(4)[4] == opening[8] && opening.skip(4)[5] == opening[9]);
    assert(opening.skip(4)[6] == opening[10] && opening.skip(4)[7] == opening[11]);
    assert(closing.skip(4)[0] == closing[4] && closing.skip(4)[1] == closing[5]);
    assert(closing.skip(4)[2] == closing[6] && closing.skip(4)[3] == closing[7]);
    assert(closing.skip(4)[4] == closing[8] && closing.skip(4)[5] == closing[9]);
    assert(closing.skip(4)[6] == closing[10] && closing.skip(4)[7] == closing[11]);
    assert(opening =~= seq![8u8, 0, 1, 0, 2, 1, 4, 0, 3, 0, 0x40, 0]);
    assert(closing =~= seq![
        8u8,
        0,
        1,
        0,
        6,
        2,
        4,
        0,
        (remote % 256) as u8,
        (remote / 256) as u8,
        0x40,
        0,
    ]);
}

/// The packet of an RFCOMM frame on channel `remote`.
pub open spec fn on_channel(
    remote: u16,
    dlci: u8,
    control: Control,
    information: Seq<u8>,
) -> Seq<u8> {
    l2cap::FrameView {
        cid: remote,
        payload: rfcomm::FrameView { dlci, control, information }.bytes(),
    }.bytes()
}

/// Whether an event says a packet, and the link took it where it is `done`.
pub open spec fn says(event: Event, packet: Seq<u8>, done: bool) -> bool {
    &&& event matches Event::Transmitted { packet: sent, outcome }
    &&& sent == packet
    &&& done ==> outcome is Ok
}

/// Whether an event waits for an answer, and heard the one that is due where it
/// is `done`.
pub open spec fn hears(event: Event, due: Due, timeout: Duration, done: bool) -> bool {
    &&& event matches Event::Received { timeout: waited, received }
    &&& waited == timeout
    &&& done ==> {
        &&& received matches Ok(Some(answer))
        &&& accepts(due, answer) is Ok
    }
}

/// The step that an event of a conversation belongs to.
spec fn step_of(count: int, at: int) -> int {
    if at < 2 {
        0
    } else if at < 4 {
        1
    } else if at < count + 4 {
        at - 2
    } else if at < count + 6 {
        count + 2
    } else if at < count + 8 {
        count + 3
    } else {
        count + 4
    }
}

/// The event in a place of a conversation says the packet of its step, or hears
/// the answer to it.
proof fn lemma_conversation_event(
    remote: u16,
    link: u8,
    bytes: Seq<u8>,
    timeout: Duration,
    events: Seq<Event>,
    outcome: Result<(), Error>,
    at: int,
)
    requires
        plays(steps(remote, link, bytes), timeout, events, outcome),
        0 <= at < events.len(),
    ensures
        ({
            let count = pieces(bytes).len() as int;
            let done = at + 1 < events.len() || outcome is Ok;
            let step = steps(remote, link, bytes)[step_of(count, at)];
            &&& events.len() <= count + 10
            &&& step.packet is Ok
            &&& if at == 1 || at == 3 || at == count + 5 || at == count + 7 || at == count + 9 {
                hears(events[at], step.due, timeout, done)
            } else {
                says(events[at], step.packet->Ok_0, done)
            }
        }),
{
    let all = steps(remote, link, bytes);
    let count = pieces(bytes).len() as int;
    lemma_conversation_places(remote, link, bytes, count);
    lemma_conversation_places(remote, link, bytes, 0);
    assert(events.len() <= count + 10) by {
        let failed = lemma_plays_step_by_step(all, timeout, events, outcome);
        if failed < all.len() {
            let own = events.skip(place(all, failed));
            lemma_step_has_its_events(all[failed], timeout, own, outcome);
            lemma_places_go_up(all, failed + 1, count + 5);
        }
    }
    if 4 <= at < count + 4 {
        lemma_conversation_places(remote, link, bytes, at - 4);
        lemma_conversation_places(remote, link, bytes, at - 3);
    }
    lemma_event_in_its_place(all, timeout, events, outcome, step_of(count, at), at);
}

/// What each step of a conversation says, and the answer due to it.
proof fn lemma_conversation_steps(remote: u16, link: u8, bytes: Seq<u8>, at: int)
    ensures
        ({
            let all = steps(remote, link, bytes);
            let count = pieces(bytes).len() as int;
            &&& all.len() == count + 5
            &&& all[0] == command_step(remote, 0, Control::Sabm)
            &&& all[1] == command_step(remote, link, Control::Sabm)
            &&& 0 <= at < count ==> all[at + 2] == data_step(remote, link, piece(bytes, at))
            &&& all[count + 2] == command_step(remote, link, Control::Disc)
            &&& all[count + 3] == command_step(remote, 0, Control::Disc)
            &&& all[count + 4] == disconnection_step(remote)
        }),
{
}

/// The packet of a frame that can be built.
proof fn lemma_packet_on_channel(
    remote: u16,
    dlci: u8,
    control: Control,
    information: Seq<u8>,
)
    requires
        packet::rfcomm_packet(remote, dlci, control, information) is Ok,
    ensures
        packet::rfcomm_packet(remote, dlci, control, information)->Ok_0 == on_channel(
            remote,
            dlci,
            control,
            information,
        ),
{
}

/// A conversation, event by event.
proof fn lemma_conversation_event_by_event(
    remote: u16,
    link: u8,
    bytes: Seq<u8>,
    timeout: Duration,
    events: Seq<Event>,
    outcome: Result<(), Error>,
    at: int,
)
    requires
        plays(steps(remote, link, bytes), timeout, events, outcome),
        0 <= at < events.len(),
    ensures
        ({
            let count = pieces(bytes).len() as int;
            let none = Seq::<u8>::empty();
            let done = at + 1 < events.len() || outcome is Ok;
            &&& events.len() <= count + 10
            &&& at == 0 ==> says(events[at], on_channel(remote, 0, Control::Sabm, none), done)
            &&& at == 1 ==> hears(events[at], Due::Acknowledgement { dlci: 0 }, timeout, done)
            &&& at == 2 ==> says(events[at], on_channel(remote, link, Control::Sabm, none), done)
            &&& at == 3 ==> hears(
                events[at],
                Due::Acknowledgement { dlci: link },
                timeout,
                done,
            )
            &&& 4 <= at < count + 4 ==> says(
                events[at],
                on_channel(
                    remote,
                    link,
                    Control::Uih,
                    bytes.subrange(
                        127 * (at - 4),
                        if 127 * (at - 3) <= bytes.len() {
                            127 * (at - 3)
                        } else {
                            bytes.len() as int
                        },
                    ),
                ),
                done,
            )
            &&& at == count + 4 ==> says(
                events[at],
                on_channel(remote, link, Control::Disc, none),
                done,
            )
            &&& at == count + 5 ==> hears(
                events[at],
                Due::Acknowledgement { dlci: link },
                timeout,
                done,
            )
            &&& at == count + 6 ==> says(
                events[at],
                on_channel(remote, 0, Control::Disc, none),
                done,
            )
            &&& at == count + 7 ==> hears(
                events[at],
                Due::Acknowledgement { dlci: 0 },
                timeout,
                done,
            )
            &&& at == count + 8 ==> says(
                events[at],
                seq![
                    8u8,
                    0,
                    1,
                    0,
                    6,
                    2,
                    4,
                    0,
                    (remote % 256) as u8,
                    (remote / 256) as u8,
                    0x40,
                    0,
                ],
                done,
            )
            &&& at == count + 9 ==> hears(events[at], Due::Disconnection, timeout, done)
        }),
{
    let count = pieces(bytes).len() as int;
    let none = Seq::<u8>::empty();
    lemma_conversation_event(remote, link, bytes, timeout, events, outcome, at);
    lemma_conversation_steps(remote, link, bytes, at - 4);
    if at < 2 {
        lemma_packet_on_channel(remote, 0, Control::Sabm, none);
    } else if at < 4 {
        lemma_packet_on_channel(remote, link, Control::Sabm, none);
    } else if at < count + 4 {
        lemma_packet_on_channel(remote, link, Control::Uih, piece(bytes, at - 4));
    } else if at < count + 6 {
        lemma_packet_on_channel(remote, link, Control::Disc, none);
    } else if at < count + 8 {
        lemma_packet_on_channel(remote, 0, Control::Disc, none);
    } else {
        lemma_request_bytes(remote);
    }
}

/// How sending a Stream begins: the connection request is said and its answer
/// waited for, and what follows is the conversation on the channel it gave.
#[verifier::opaque]
spec fn begins(
    channel: u8,
    bytes: Seq<u8>,
    timeout: Duration,
    events: Seq<Event>,
    outcome: Result<(), Error>,
) -> bool {
    let heard = events[1]->Received_received;
    let remote = connected_to(heard->Ok_0->0);
    &&& events.len() >= 1
    &&& says(
        events[0],
        seq![8u8, 0, 1, 0, 2, 1, 4, 0, 3, 0, 0x40, 0],
        events.len() > 1 || outcome is Ok,
    )
    &&& events.len() == 1 ==> outcome is Err && outcome == events[0]->Transmitted_outcome
    &&& events.len() >= 2 ==> {
        &&& events[1] matches Event::Received { timeout: waited, .. }
        &&& waited == timeout
        &&& if heard is Ok && heard->Ok_0 is Some && remote is Ok {
            plays(
                steps(remote->Ok_0, dlci_of(channel), bytes),
                timeout,
                events.skip(2),
                outcome,
            )
        } else {
            &&& events.len() == 2
            &&& match heard {
                Err(error) => outcome == Err::<(), Error>(error),
                Ok(None) => outcome == Err::<(), Error>(Error::NoAnswer),
                Ok(Some(_)) => outcome == Err::<(), Error>(remote->Err_0),
            }
        }
    }
}

/// Sending a Stream begins so.
proof fn lemma_sends_begins(
    channel: u8,
    bytes: Seq<u8>,
    timeout: Duration,
    events: Seq<Event>,
    outcome: Result<(), Error>,
)
    requires
        sends(channel, bytes, timeout, events, outcome),
    ensures
        begins(channel, bytes, timeout, events, outcome),
{
    let opening = if events.len() < 2 {
        events
    } else {
        events.take(2)
    };
    assert(opening[0] == events[0]);
    if events.len() >= 2 {
        assert(opening[1] == events[1]);
    }
    lemma_request_bytes(0);
    reveal(begins);
}

/// Sending a Stream that begins so, event by event from the third on.
proof fn lemma_begins_event_by_event(
    channel: u8,
    bytes: Seq<u8>,
    timeout: Duration,
    events: Seq<Event>,
    outcome: Result<(), Error>,
    remote: u16,
    count: int,
    link: u8,
    at: int,
)
    requires
        count == pieces(bytes).len(),
        link == dlci_of(channel),
        begins(channel, bytes, timeout, events, outcome),
        2 <= at < events.len(),
        remote == connected_to(events[1]->Received_received->Ok_0->0)->Ok_0,
    ensures
        ({
            let none = Seq::<u8>::empty();
            let done = at + 1 < events.len() || outcome is Ok;
            &&& events.len() <= count + 12
            &&& at == 2 ==> says(events[at], on_channel(remote, 0, Control::Sabm, none), done)
            &&& at == 3 ==> hears(events[at], Due::Acknowledgement { dlci: 0 }, timeout, done)
            &&& at == 4 ==> says(events[at], on_channel(remote, link, Control::Sabm, none), done)
            &&& at == 5 ==> hears(
                events[at],
                Due::Acknowledgement { dlci: link },
                timeout,
                done,
            )
            &&& 6 <= at < count + 6 ==> says(
                events[at],
                on_channel(
                    remote,
                    link,
                    Control::Uih,
                    bytes.subrange(
                        127 * (at - 6),
                        if 127 * (at - 5) <= bytes.len() {
                            127 * (at - 5)
                        } else {
                            bytes.len() as int
                        },
                    ),
                ),
                done,
            )
            &&& at == count + 6 ==> says(
                events[at],
                on_channel(remote, link, Control::Disc, none),
                done,
            )
            &&& at == count + 7 ==> hears(
                events[at],
                Due::Acknowledgement { dlci: link },
                timeout,
                done,
            )
            &&& at == count + 8 ==> says(
                events[at],
                on_channel(remote, 0, Control::Disc, none),
                done,
            )
            &&& at == count + 9 ==> hears(
                events[at],
                Due::Acknowledgement { dlci: 0 },
                timeout,
                done,
            )
            &&& at == count + 10 ==> says(
                events[at],
                seq![
                    8u8,
                    0,
                    1,
                    0,
                    6,
                    2,
                    4,
                    0,
                    (remote % 256) as u8,
                    (remote / 256) as u8,
                    0x40,
                    0,
                ],
                done,
            )
            &&& at == count + 11 ==> hears(events[at], Due::Disconnection, timeout, done)
        }),
{
    let rest = events.skip(2);
    assert(plays(steps(remote, link, bytes), timeout, rest, outcome)) by {
        reveal(begins);
    }
    assert(rest[at - 2] == events[at]);
    lemma_conversation_event_by_event(
        remote,
        link,
        bytes,
        timeout,
        rest,
        outcome,
        at - 2,
    );
}

/// Sending a Stream begins with the connection request, whose bytes are always
/// the same, and one wait of the timeout for its answer. More follows only once
/// a connection response was heard that opens the channel.
pub proof fn law_sending_begins_with_the_connection(
    channel: u8,
    bytes: Seq<u8>,
    timeout: Duration,
    events: Seq<Event>,
    outcome: Result<(), Error>,
)
    requires
        sends(channel, bytes, timeout, events, outcome),
    ensures
        events.len() >= 1,
        says(
            events[0],
            seq![8u8, 0, 1, 0, 2, 1, 4, 0, 3, 0, 0x40, 0],
            events.len() > 1 || outcome is Ok,
        ),
        events.len() >= 2 ==> (events[1] matches Event::Received { timeout: waited, received }
            && waited == timeout && (events.len() > 2 || outcome is Ok ==> {
            &&& received matches Ok(Some(answer))
            &&& connected_to(answer) is Ok
        })),
{
    lemma_sends_begins(channel, bytes, timeout, events, outcome);
    reveal(begins);
}

/// Sending a Stream goes on, event by event, on the channel that the answer to
/// the connection request gave and no other: SABM on link 0 and on the link that
/// is twice the channel, each with an answer waited for, the Stream in frames of
/// 127 bytes on that link with none, DISC on that link and on link 0, and the
/// disconnection request that names that channel, each with an answer waited
/// for. Every wait is for the timeout, and every event but the last went well.
#[verifier::rlimit(40)]
pub proof fn law_sending_event_by_event(
    channel: u8,
    bytes: Seq<u8>,
    timeout: Duration,
    events: Seq<Event>,
    outcome: Result<(), Error>,
    remote: u16,
    at: int,
)
    requires
        sends(channel, bytes, timeout, events, outcome),
        events[1] matches Event::Received { received: Ok(Some(answer)), .. } && connected_to(answer)
            == Ok::<u16, Error>(remote),
        2 <= at < events.len(),
    ensures
        ({
            let count = (bytes.len() + 126) as int / 127;
            let link = (2 * channel % 256) as u8;
            let none = Seq::<u8>::empty();
            let done = at + 1 < events.len() || outcome is Ok;
            &&& events.len() <= count + 12
            &&& at == 2 ==> says(events[at], on_channel(remote, 0, Control::Sabm, none), done)
            &&& at == 3 ==> hears(events[at], Due::Acknowledgement { dlci: 0 }, timeout, done)
            &&& at == 4 ==> says(events[at], on_channel(remote, link, Control::Sabm, none), done)
            &&& at == 5 ==> hears(
                events[at],
                Due::Acknowledgement { dlci: link },
                timeout,
                done,
            )
            &&& 6 <= at < count + 6 ==> says(
                events[at],
                on_channel(
                    remote,
                    link,
                    Control::Uih,
                    bytes.subrange(
                        127 * (at - 6),
                        if 127 * (at - 5) <= bytes.len() {
                            127 * (at - 5)
                        } else {
                            bytes.len() as int
                        },
                    ),
                ),
                done,
            )
            &&& at == count + 6 ==> says(
                events[at],
                on_channel(remote, link, Control::Disc, none),
                done,
            )
            &&& at == count + 7 ==> hears(
                events[at],
                Due::Acknowledgement { dlci: link },
                timeout,
                done,
            )
            &&& at == count + 8 ==> says(
                events[at],
                on_channel(remote, 0, Control::Disc, none),
                done,
            )
            &&& at == count + 9 ==> hears(
                events[at],
                Due::Acknowledgement { dlci: 0 },
                timeout,
                done,
            )
            &&& at == count + 10 ==> says(
                events[at],
                seq![
                    8u8,
                    0,
                    1,
                    0,
                    6,
                    2,
                    4,
                    0,
                    (remote % 256) as u8,
                    (remote / 256) as u8,
                    0x40,
                    0,
                ],
                done,
            )
            &&& at == count + 11 ==> hears(events[at], Due::Disconnection, timeout, done)
        }),
{
    let count = (bytes.len() + 126) as int / 127;
    let link = (2 * channel % 256) as u8;
    lemma_sends_begins(channel, bytes, timeout, events, outcome);
    lemma_begins_event_by_event(
        channel,
        bytes,
        timeout,
        events,
        outcome,
        remote,
        count,
        link,
        at,
    );
}

/// Where a conversation that failed with `error` ends.
spec fn ends(remote: u16, dlci: u8, bytes: Seq<u8>, events: Seq<Event>, error: Error) -> bool {
    let count = pieces(bytes).len() as int;
    let said = events.len();
    if said == 0 {
        remote == 0 && error is NullChannel
    } else {
        match events.last() {
            Event::Transmitted { outcome, .. } => outcome == Err::<(), Error>(error),
            Event::Received { received: Err(other), .. } => other == error,
            Event::Received { received: Ok(None), .. } => error is NoAnswer,
            Event::Received { received: Ok(Some(answer)), .. } => if said == 2 {
                let read = accepts(Due::Acknowledgement { dlci: 0 }, answer);
                ||| read == Err::<(), Error>(error)
                ||| read is Ok && dlci > 61 && error is DlciOver
            } else if said == count + 10 {
                accepts(Due::Disconnection, answer) == Err::<(), Error>(error)
            } else if said == count + 8 {
                accepts(Due::Acknowledgement { dlci: 0 }, answer) == Err::<(), Error>(error)
            } else {
                accepts(Due::Acknowledgement { dlci }, answer) == Err::<(), Error>(error)
            },
            Event::Collected { .. } => false,
        }
    }
}

/// Where a conversation that failed ends.
proof fn lemma_end_of_conversation(
    remote: u16,
    dlci: u8,
    bytes: Seq<u8>,
    timeout: Duration,
    events: Seq<Event>,
    error: Error,
)
    requires
        plays(steps(remote, dlci, bytes), timeout, events, Err(error)),
    ensures
        ends(remote, dlci, bytes, events, error),
{
    let all = steps(remote, dlci, bytes);
    let count = pieces(bytes).len() as int;
    let outcome = Err::<(), Error>(error);
    let failed = lemma_plays_fails_at_its_end(all, timeout, events, error);
    lemma_conversation_places(remote, dlci, bytes, count);
    lemma_conversation_places(remote, dlci, bytes, 0);
    if 2 <= failed < count + 2 {
        lemma_conversation_places(remote, dlci, bytes, failed - 2);
        lemma_conversation_places(remote, dlci, bytes, failed - 1);
        assert(all[failed] == data_step(remote, dlci, piece(bytes, failed - 2)));
    }
    if failed >= 1 {
        lemma_places_go_up(all, 1, failed);
        lemma_event_in_its_place(all, timeout, events, outcome, 0, 0);
        assert(remote != 0);
    }
    if failed >= 2 {
        lemma_places_go_up(all, 2, failed);
        lemma_event_in_its_place(all, timeout, events, outcome, 1, 2);
        assert(dlci <= 61);
        assert(all[failed].packet is Ok);
    }
}

/// A conversation ends well when all of it was said and the last answer is a
/// disconnection response.
proof fn lemma_conversation_ends(
    remote: u16,
    dlci: u8,
    bytes: Seq<u8>,
    timeout: Duration,
    events: Seq<Event>,
    outcome: Result<(), Error>,
)
    requires
        plays(steps(remote, dlci, bytes), timeout, events, outcome),
    ensures
        ({
            let count = pieces(bytes).len() as int;
            outcome is Ok ==> {
                &&& events.len() == count + 10
                &&& events.last() matches Event::Received { received: Ok(Some(answer)), .. }
                &&& accepts(Due::Disconnection, answer) is Ok
            }
        }),
        outcome matches Err(error) ==> ends(remote, dlci, bytes, events, error),
{
    let all = steps(remote, dlci, bytes);
    let count = pieces(bytes).len() as int;
    match outcome {
        Ok(_) => {
            let failed = lemma_plays_step_by_step(all, timeout, events, outcome);
            lemma_conversation_places(remote, dlci, bytes, count);
            lemma_conversation_steps(remote, dlci, bytes, 0);
            lemma_event_in_its_place(all, timeout, events, outcome, count + 4, count + 9);
        },
        Err(error) => {
            lemma_end_of_conversation(remote, dlci, bytes, timeout, events, error);
        },
    }
}

/// Sending a Stream that begins so ends as its last event says.
proof fn lemma_begins_ends(
    channel: u8,
    bytes: Seq<u8>,
    timeout: Duration,
    events: Seq<Event>,
    outcome: Result<(), Error>,
    count: int,
    link: u8,
)
    requires
        begins(channel, bytes, timeout, events, outcome),
        count == pieces(bytes).len(),
        link == dlci_of(channel),
    ensures
        ({
            let said = events.len();
            let last = events.last();
            &&& outcome is Ok <==> {
                &&& said == count + 12
                &&& last matches Event::Received { received: Ok(Some(answer)), .. }
                &&& accepts(Due::Disconnection, answer) is Ok
            }
            &&& outcome matches Err(error) ==> match last {
                Event::Transmitted { outcome: went, .. } => went == Err::<(), Error>(error),
                Event::Received { received: Err(other), .. } => other == error,
                Event::Received { received: Ok(None), .. } => error is NoAnswer,
                Event::Received { received: Ok(Some(answer)), .. } => if said == 2 {
                    ||| connected_to(answer) == Err::<u16, Error>(error)
                    ||| connected_to(answer) == Ok::<u16, Error>(0) && error is NullChannel
                } else if said == 4 {
                    let read = accepts(Due::Acknowledgement { dlci: 0 }, answer);
                    ||| read == Err::<(), Error>(error)
                    ||| read is Ok && link > 61 && error is DlciOver
                } else if said == count + 12 {
                    accepts(Due::Disconnection, answer) == Err::<(), Error>(error)
                } else if said == count + 10 {
                    accepts(Due::Acknowledgement { dlci: 0 }, answer) == Err::<(), Error>(error)
                } else {
                    accepts(Due::Acknowledgement { dlci: link }, answer) == Err::<(), Error>(error)
                },
                Event::Collected { .. } => false,
            }
        }),
{
    let rest = events.skip(2);
    let heard = events[1]->Received_received;
    let remote = connected_to(heard->Ok_0->0);
    reveal(begins);
    if events.len() >= 2 && heard is Ok && heard->Ok_0 is Some && remote is Ok {
        lemma_conversation_ends(remote->Ok_0, link, bytes, timeout, rest, outcome);
        if rest.len() > 0 {
            assert(rest.last() == events.last());
        }
    }
}

/// How sending a Stream ends is what its last event says. It ends well exactly
/// when all was said and the last answer is a disconnection response. It ends
/// with the link's own error where the link failed, with silence where no answer
/// came, with what is wrong with the answer where one is not the one due, and
/// otherwise because the next packet cannot be: the server gave channel 0, or
/// the link is one that is reserved.
pub proof fn law_sending_ends_as_its_last_event_says(
    channel: u8,
    bytes: Seq<u8>,
    timeout: Duration,
    events: Seq<Event>,
    outcome: Result<(), Error>,
)
    requires
        sends(channel, bytes, timeout, events, outcome),
    ensures
        ({
            let count = (bytes.len() + 126) as int / 127;
            let link = (2 * channel % 256) as u8;
            let said = events.len();
            let last = events.last();
            &&& outcome is Ok <==> {
                &&& said == count + 12
                &&& last matches Event::Received { received: Ok(Some(answer)), .. }
                &&& accepts(Due::Disconnection, answer) is Ok
            }
            &&& outcome matches Err(error) ==> match last {
                Event::Transmitted { outcome: went, .. } => went == Err::<(), Error>(error),
                Event::Received { received: Err(other), .. } => other == error,
                Event::Received { received: Ok(None), .. } => error is NoAnswer,
                Event::Received { received: Ok(Some(answer)), .. } => if said == 2 {
                    ||| connected_to(answer) == Err::<u16, Error>(error)
                    ||| connected_to(answer) == Ok::<u16, Error>(0) && error is NullChannel
                } else if said == 4 {
                    let read = accepts(Due::Acknowledgement { dlci: 0 }, answer);
                    ||| read == Err::<(), Error>(error)
                    ||| read is Ok && link > 61 && error is DlciOver
                } else if said == count + 12 {
                    accepts(Due::Disconnection, answer) == Err::<(), Error>(error)
                } else if said == count + 10 {
                    accepts(Due::Acknowledgement { dlci: 0 }, answer) == Err::<(), Error>(error)
                } else {
                    accepts(Due::Acknowledgement { dlci: link }, answer) == Err::<(), Error>(error)
                },
                Event::Collected { .. } => false,
            }
        }),
{
    let count = (bytes.len() + 126) as int / 127;
    let link = (2 * channel % 256) as u8;
    lemma_sends_begins(channel, bytes, timeout, events, outcome);
    lemma_begins_ends(channel, bytes, timeout, events, outcome, count, link);
}

/// What a log has gained is what was put behind it.
pub proof fn law_since_is_what_came_after(before: Seq<Event>, more: Seq<Event>)
    ensures
        since(before, before + more) == more,
{
    assert(since(before, before + more) =~= more);
}

} // verus!
