//! A client and a server talking to each other: what a client writes, the
//! server on the other end takes whole.

use crate::client;
use crate::client::{Due, Step};
use crate::error::Error;
use crate::l2cap;
use crate::l2cap::Signal;
use crate::packet;
use crate::radio;
use crate::radio::{Event, LoopbackView};
use crate::rfcomm;
use crate::rfcomm::Control;
use crate::server;
use crate::server::{ServedView, ServingView};
use crate::session;
use crate::session::{ResponseView, SessionView};
use std::time::Duration;
use vstd::prelude::*;

verus! {

/// The Streams that several packets complete, in order.
pub open spec fn completed(session: SessionView, packets: Seq<Seq<u8>>) -> Seq<(u8, Seq<u8>)>
    decreases packets.len(),
{
    if packets.len() == 0 {
        Seq::empty()
    } else {
        let before = completed(session, packets.drop_last());
        match session.after(packets.drop_last()).handled(packets.last()).1 {
            Ok(ResponseView { complete: Some(stream), .. }) => before.push(stream),
            _ => before,
        }
    }
}

/// Whether a session answers a step with exactly what is due to it.
pub open spec fn suits_step(session: SessionView, step: Step) -> bool {
    &&& step.packet matches Ok(packet)
    &&& session.handled(packet).1 matches Ok(response)
    &&& match step.due {
        Due::Nothing => response.answers.len() == 0,
        due => response.answers.len() == 1 && client::accepts(due, response.answers[0]) is Ok,
    }
}

/// Whether a session answers each of several steps with exactly what is due
/// to it.
pub open spec fn suits(session: SessionView, steps: Seq<Step>) -> bool
    decreases steps.len(),
{
    steps.len() == 0 || {
        &&& suits(session, steps.drop_last())
        &&& suits_step(session.after(client::packets_of(steps.drop_last())), steps.last())
    }
}

/// Steps followed by steps.
proof fn lemma_append(session: SessionView, first: Seq<Step>, second: Seq<Step>)
    ensures
        client::packets_of(first + second) == client::packets_of(first) + client::packets_of(
            second,
        ),
        session.after(client::packets_of(first + second)) == session.after(
            client::packets_of(first),
        ).after(client::packets_of(second)),
        completed(session, client::packets_of(first + second)) == completed(
            session,
            client::packets_of(first),
        ) + completed(session.after(client::packets_of(first)), client::packets_of(second)),
        suits(session, first + second) == (suits(session, first) && suits(
            session.after(client::packets_of(first)),
            second,
        )),
    decreases second.len(),
{
    let all = first + second;
    assert(client::packets_of(all) =~= client::packets_of(first) + client::packets_of(second));
    let then = session.after(client::packets_of(first));
    if second.len() == 0 {
        assert(all =~= first);
        assert(completed(session, client::packets_of(first)) + completed(
            then,
            client::packets_of(second),
        ) =~= completed(session, client::packets_of(first)));
    } else {
        lemma_append(session, first, second.drop_last());
        assert(all.drop_last() =~= first + second.drop_last());
        assert(all.last() == second.last());
        assert(client::packets_of(all).drop_last() =~= client::packets_of(all.drop_last()));
        assert(client::packets_of(second).drop_last() =~= client::packets_of(second.drop_last()));
        assert(client::packets_of(all).last() == client::packets_of(second).last());
        assert(completed(session, client::packets_of(all)) =~= completed(
            session,
            client::packets_of(first),
        ) + completed(then, client::packets_of(second)));
    }
}

/// A single step.
proof fn lemma_one(session: SessionView, step: Step)
    ensures
        client::packets_of(seq![step]) == seq![step.packet->Ok_0],
        session.after(client::packets_of(seq![step])) == session.handled(step.packet->Ok_0).0,
        suits(session, seq![step]) == suits_step(session, step),
        completed(session, client::packets_of(seq![step])) == (match session.handled(
            step.packet->Ok_0,
        ).1 {
            Ok(ResponseView { complete: Some(stream), .. }) => seq![stream],
            _ => Seq::empty(),
        }),
{
    let one = seq![step];
    assert(client::packets_of(one) =~= seq![step.packet->Ok_0]);
    assert(one.drop_last() =~= Seq::empty());
    assert(client::packets_of(one).drop_last() =~= Seq::empty());
    assert(client::packets_of(one.drop_last()) =~= Seq::empty());
    reveal_with_fuel(SessionView::after, 2);
    reveal_with_fuel(completed, 2);
    reveal_with_fuel(suits, 2);
}

/// The first step, then more.
proof fn lemma_first(session: SessionView, steps: Seq<Step>)
    requires
        steps.len() > 0,
    ensures
        ({
            let next = session.handled(steps[0].packet->Ok_0).0;
            &&& session.after(client::packets_of(steps)) == next.after(
                client::packets_of(steps.skip(1)),
            )
            &&& suits(session, steps) == (suits_step(session, steps[0]) && suits(
                next,
                steps.skip(1),
            ))
            &&& completed(session, client::packets_of(steps)) == (match session.handled(
                steps[0].packet->Ok_0,
            ).1 {
                Ok(ResponseView { complete: Some(stream), .. }) => seq![stream],
                _ => Seq::empty(),
            }) + completed(next, client::packets_of(steps.skip(1)))
        }),
{
    assert(steps =~= seq![steps[0]] + steps.skip(1));
    lemma_append(session, seq![steps[0]], steps.skip(1));
    lemma_one(session, steps[0]);
}

/// A step that suits the session inside a loopback radio goes well there, and
/// leaves the radio with the Stream it completes.
proof fn lemma_loopback_step(
    state: LoopbackView,
    steps: Seq<Step>,
    timeout: Duration,
    events: Seq<Event>,
    outcome: Result<(), Error>,
)
    requires
        steps.len() > 0,
        state.to_client.len() == 0,
        suits_step(state.session, steps[0]),
        client::plays(steps, timeout, events, outcome),
        state.admits_all(events),
    ensures
        ({
            let rest = events.skip(client::event_count(steps[0]));
            let (next, said) = state.session.handled(steps[0].packet->Ok_0);
            let then = LoopbackView {
                session: next,
                to_client: state.to_client,
                arrived: state.arrived + (match said {
                    Ok(ResponseView { complete: Some(stream), .. }) => seq![stream],
                    _ => Seq::empty(),
                }),
            };
            &&& client::plays(steps.skip(1), timeout, rest, outcome)
            &&& then.admits_all(rest)
            &&& state.after_all(events) == then.after_all(rest)
        }),
{
    let step = steps[0];
    let (next, said) = state.session.handled(step.packet->Ok_0);
    let rest = events.skip(client::event_count(step));
    let told = state.transmitted(step.packet->Ok_0).0;
    let arrived = state.arrived + (match said {
        Ok(ResponseView { complete: Some(stream), .. }) => seq![stream],
        _ => Seq::empty(),
    });
    radio::lemma_after_first(state, events);
    assert(told.arrived =~= arrived);
    if step.due is Nothing {
        assert(told.to_client =~= state.to_client);
    } else {
        radio::lemma_after_first(told, events.skip(1));
        assert(events.skip(1).skip(1) =~= rest);
        assert(events.skip(1)[0] == events[1]);
        assert(told.to_client =~= said->Ok_0.answers);
        assert(told.received().0.to_client =~= state.to_client);
    }
}

/// Steps that suit the session inside a loopback radio go well there, and
/// leave the radio with the Streams they complete.
proof fn lemma_loopback_plays(
    state: LoopbackView,
    steps: Seq<Step>,
    timeout: Duration,
    events: Seq<Event>,
    outcome: Result<(), Error>,
)
    requires
        state.to_client.len() == 0,
        suits(state.session, steps),
        client::plays(steps, timeout, events, outcome),
        state.admits_all(events),
    ensures
        outcome is Ok,
        state.after_all(events) == (LoopbackView {
            session: state.session.after(client::packets_of(steps)),
            to_client: state.to_client,
            arrived: state.arrived + completed(state.session, client::packets_of(steps)),
        }),
    decreases steps.len(),
{
    if steps.len() == 0 {
        assert(client::packets_of(steps) =~= Seq::empty());
        assert(state.arrived + completed(state.session, client::packets_of(steps))
            =~= state.arrived);
    } else {
        let (next, said) = state.session.handled(steps[0].packet->Ok_0);
        let stream = match said {
            Ok(ResponseView { complete: Some(stream), .. }) => seq![stream],
            _ => Seq::empty(),
        };
        let then = LoopbackView {
            session: next,
            to_client: state.to_client,
            arrived: state.arrived + stream,
        };
        let rest = events.skip(client::event_count(steps[0]));
        lemma_first(state.session, steps);
        lemma_loopback_step(state, steps, timeout, events, outcome);
        lemma_loopback_plays(then, steps.skip(1), timeout, rest, outcome);
        assert(state.after_all(events).arrived =~= state.arrived + completed(
            state.session,
            client::packets_of(steps),
        ));
    }
}

/// A session with a channel open to a client of this library.
pub open spec fn connected() -> SessionView {
    SessionView { remote: Some(l2cap::FIRST_DYNAMIC), ..SessionView::fresh() }
}

/// A command that the session answers UA suits it.
proof fn lemma_command_suits(session: SessionView, dlci: u8, control: Control)
    requires
        session.remote == Some(l2cap::FIRST_DYNAMIC),
        dlci <= rfcomm::MAX_DLCI,
        session.takes(
            rfcomm::FrameView { dlci, control, information: Seq::empty() },
        ).answer == Some(Control::Ua),
    ensures
        ({
            let step = client::command_step(l2cap::FIRST_DYNAMIC, dlci, control);
            let taken = session.takes(
                rfcomm::FrameView { dlci, control, information: Seq::empty() },
            );
            &&& suits_step(session, step)
            &&& session.handled(step.packet->Ok_0).0 == taken.next
            &&& session.handled(step.packet->Ok_0).1 is Ok
            &&& session.handled(step.packet->Ok_0).1->Ok_0.complete == taken.complete
            &&& !session.handled(step.packet->Ok_0).1->Ok_0.closed
        }),
{
    session::lemma_handles_frame(session, dlci, control, Seq::empty());
    packet::law_rfcomm_packet_reads_back(
        l2cap::FIRST_DYNAMIC,
        dlci,
        Control::Ua,
        Seq::empty(),
    );
}

/// Whether every one of several packets is taken, and none ends the
/// connection.
pub open spec fn stays_open(session: SessionView, packets: Seq<Seq<u8>>) -> bool
    decreases packets.len(),
{
    packets.len() == 0 || {
        &&& stays_open(session, packets.drop_last())
        &&& session.after(packets.drop_last()).handled(packets.last()).1 matches Ok(response)
        &&& !response.closed
    }
}

/// All but the last of what a client says once it is connected.
pub open spec fn steps_but_last(dlci: u8, bytes: Seq<u8>) -> Seq<Step> {
    client::opening_steps(l2cap::FIRST_DYNAMIC, dlci) + client::data_steps(
        l2cap::FIRST_DYNAMIC,
        dlci,
        bytes,
    ) + seq![
        client::command_step(l2cap::FIRST_DYNAMIC, dlci, Control::Disc),
        client::command_step(l2cap::FIRST_DYNAMIC, 0, Control::Disc),
    ]
}

/// Whether a session answers each of several steps with what is due and stays
/// connected, and they leave it as `next`, with `streams` completed.
#[verifier::opaque]
pub closed spec fn leads(
    session: SessionView,
    steps: Seq<Step>,
    next: SessionView,
    streams: Seq<(u8, Seq<u8>)>,
) -> bool {
    &&& suits(session, steps)
    &&& stays_open(session, client::packets_of(steps))
    &&& session.after(client::packets_of(steps)) == next
    &&& completed(session, client::packets_of(steps)) == streams
}

/// Whether a session answers each of several steps with what is due, connected
/// or not in the end, and they leave it as `next`, with `streams` completed.
#[verifier::opaque]
pub closed spec fn finishes(
    session: SessionView,
    steps: Seq<Step>,
    next: SessionView,
    streams: Seq<(u8, Seq<u8>)>,
) -> bool {
    &&& suits(session, steps)
    &&& session.after(client::packets_of(steps)) == next
    &&& completed(session, client::packets_of(steps)) == streams
}

/// A command that is answered UA leads where the session takes it.
proof fn lemma_command_leads(session: SessionView, dlci: u8, control: Control)
    requires
        session.remote == Some(l2cap::FIRST_DYNAMIC),
        dlci <= rfcomm::MAX_DLCI,
        session.takes(
            rfcomm::FrameView { dlci, control, information: Seq::empty() },
        ).answer == Some(Control::Ua),
    ensures
        ({
            let taken = session.takes(
                rfcomm::FrameView { dlci, control, information: Seq::empty() },
            );
            leads(
                session,
                seq![client::command_step(l2cap::FIRST_DYNAMIC, dlci, control)],
                taken.next,
                match taken.complete {
                    Some(stream) => seq![stream],
                    None => Seq::empty(),
                },
            )
        }),
{
    let step = client::command_step(l2cap::FIRST_DYNAMIC, dlci, control);
    lemma_command_suits(session, dlci, control);
    lemma_one(session, step);
    lemma_stays_open_one(session, step);
    reveal(leads);
}

/// Where steps lead, further steps lead on.
proof fn lemma_leads_on(
    session: SessionView,
    first: Seq<Step>,
    middle: SessionView,
    before: Seq<(u8, Seq<u8>)>,
    second: Seq<Step>,
    next: SessionView,
    streams: Seq<(u8, Seq<u8>)>,
)
    requires
        leads(session, first, middle, before),
        leads(middle, second, next, streams),
    ensures
        leads(session, first + second, next, before + streams),
{
    reveal(leads);
    lemma_append(session, first, second);
    lemma_stays_open_append(session, client::packets_of(first), client::packets_of(second));
}

/// A piece of data on the open link leads to a longer Stream, and completes
/// nothing.
proof fn lemma_piece_leads(session: SessionView, dlci: u8, piece: Seq<u8>)
    requires
        session.wf(),
        session.open == Some(dlci),
        piece.len() <= rfcomm::MAX_FRAME,
    ensures
        leads(
            session,
            seq![client::data_step(l2cap::FIRST_DYNAMIC, dlci, piece)],
            SessionView { information: session.information + piece, ..session },
            Seq::empty(),
        ),
{
    let step = client::data_step(l2cap::FIRST_DYNAMIC, dlci, piece);
    session::lemma_handles_frame(session, dlci, Control::Uih, piece);
    session::law_data_is_taken_and_not_acknowledged(session, dlci, piece);
    lemma_one(session, step);
    lemma_stays_open_one(session, step);
    reveal(leads);
}

/// Data on the open link leads to a Stream with the pieces put after what was
/// there, and completes nothing.
proof fn lemma_data_leads(session: SessionView, dlci: u8, pieces: Seq<Seq<u8>>)
    requires
        session.wf(),
        session.open == Some(dlci),
        forall|i: int| 0 <= i < pieces.len() ==> (#[trigger] pieces[i]).len() <= rfcomm::MAX_FRAME,
    ensures
        leads(
            session,
            pieces.map_values(
                |piece: Seq<u8>| client::data_step(l2cap::FIRST_DYNAMIC, dlci, piece),
            ),
            SessionView {
                information: session.information + session::joined(pieces),
                ..session
            },
            Seq::empty(),
        ),
    decreases pieces.len(),
{
    let told = |piece: Seq<u8>| client::data_step(l2cap::FIRST_DYNAMIC, dlci, piece);
    let none = Seq::<(u8, Seq<u8>)>::empty();
    let steps = pieces.map_values(told);
    if pieces.len() == 0 {
        assert(session.information + session::joined(pieces) =~= session.information);
        assert(client::packets_of(steps) =~= Seq::empty());
        reveal(leads);
    } else {
        let shorter = pieces.drop_last();
        let last = pieces.last();
        let before = SessionView {
            information: session.information + session::joined(shorter),
            ..session
        };
        let after = SessionView { information: before.information + last, ..session };
        assert forall|i: int| 0 <= i < shorter.len() implies (#[trigger] shorter[i]).len()
            <= rfcomm::MAX_FRAME by {
            assert(shorter[i] == pieces[i]);
        }
        assert(pieces[pieces.len() - 1] == last);
        lemma_data_leads(session, dlci, shorter);
        lemma_piece_leads(before, dlci, last);
        lemma_leads_on(
            session,
            shorter.map_values(told),
            before,
            none,
            seq![told(last)],
            after,
            none,
        );
        assert(shorter.map_values(told) + seq![told(last)] =~= steps);
        assert(none + none =~= none);
        assert(after.information =~= session.information + session::joined(pieces));
    }
}

/// What a client says once it is connected, up to the DISC of its data link.
pub open spec fn steps_to_disc(dlci: u8, bytes: Seq<u8>) -> Seq<Step> {
    client::opening_steps(l2cap::FIRST_DYNAMIC, dlci) + client::data_steps(
        l2cap::FIRST_DYNAMIC,
        dlci,
        bytes,
    ) + seq![client::command_step(l2cap::FIRST_DYNAMIC, dlci, Control::Disc)]
}

/// A session that was just connected answers each step of a client up to the
/// DISC of its data link with what is due, and takes the Stream whole.
proof fn lemma_client_leads_to_disc(dlci: u8, bytes: Seq<u8>)
    requires
        1 <= dlci <= rfcomm::MAX_DLCI,
    ensures
        leads(
            connected(),
            steps_to_disc(dlci, bytes),
            SessionView { multiplexer: true, ..connected() },
            seq![(dlci, bytes)],
        ),
{
    let remote = l2cap::FIRST_DYNAMIC;
    let none = Seq::<(u8, Seq<u8>)>::empty();
    let start = connected();
    let up = SessionView { multiplexer: true, ..start };
    let opened = SessionView { open: Some(dlci), ..up };
    let loaded = SessionView { information: bytes, ..opened };
    let sabm0 = seq![client::command_step(remote, 0, Control::Sabm)];
    let sabm = seq![client::command_step(remote, dlci, Control::Sabm)];
    let disc = seq![client::command_step(remote, dlci, Control::Disc)];
    let data = client::data_steps(remote, dlci, bytes);
    lemma_command_leads(start, 0, Control::Sabm);
    lemma_command_leads(up, dlci, Control::Sabm);
    lemma_command_leads(loaded, dlci, Control::Disc);
    assert(leads(opened, data, loaded, none)) by {
        let pieces = client::pieces(bytes);
        client::law_pieces_are_the_stream(bytes);
        assert forall|i: int| 0 <= i < pieces.len() implies (#[trigger] pieces[i]).len()
            <= rfcomm::MAX_FRAME by {}
        lemma_data_leads(opened, dlci, pieces);
        assert(opened.information + bytes =~= bytes);
    }
    assert(SessionView { information: Seq::empty(), ..opened } == opened);
    assert(SessionView { open: None, information: Seq::empty(), ..loaded } == up);
    lemma_leads_on(start, sabm0, up, none, sabm, opened, none);
    lemma_leads_on(start, sabm0 + sabm, opened, none + none, data, loaded, none);
    lemma_leads_on(
        start,
        sabm0 + sabm + data,
        loaded,
        none + none + none,
        disc,
        up,
        seq![(dlci, bytes)],
    );
    assert(sabm0 + sabm + data + disc =~= steps_to_disc(dlci, bytes));
    assert(none + none + none + seq![(dlci, bytes)] =~= seq![(dlci, bytes)]);
}

/// A session that was just connected answers each step of a client with what
/// is due, takes the Stream whole, and is connected and nothing more when only
/// the disconnection is left to say.
proof fn lemma_client_leads(dlci: u8, bytes: Seq<u8>)
    requires
        1 <= dlci <= rfcomm::MAX_DLCI,
    ensures
        leads(connected(), steps_but_last(dlci, bytes), connected(), seq![(dlci, bytes)]),
{
    let none = Seq::<(u8, Seq<u8>)>::empty();
    let start = connected();
    let up = SessionView { multiplexer: true, ..start };
    let disc0 = seq![client::command_step(l2cap::FIRST_DYNAMIC, 0, Control::Disc)];
    lemma_client_leads_to_disc(dlci, bytes);
    lemma_command_leads(up, 0, Control::Disc);
    assert(SessionView { multiplexer: false, ..up } == start);
    lemma_leads_on(
        start,
        steps_to_disc(dlci, bytes),
        up,
        seq![(dlci, bytes)],
        disc0,
        start,
        none,
    );
    assert(steps_to_disc(dlci, bytes) + disc0 =~= steps_but_last(dlci, bytes));
    assert(seq![(dlci, bytes)] + none =~= seq![(dlci, bytes)]);
}

/// A single packet that is taken and does not end the connection.
proof fn lemma_stays_open_one(session: SessionView, step: Step)
    ensures
        stays_open(session, client::packets_of(seq![step])) == (session.handled(
            step.packet->Ok_0,
        ).1 is Ok && !session.handled(step.packet->Ok_0).1->Ok_0.closed),
{
    lemma_one(session, step);
    let packets = client::packets_of(seq![step]);
    assert(packets.drop_last() =~= Seq::empty());
    reveal_with_fuel(stays_open, 2);
    reveal_with_fuel(SessionView::after, 2);
}

/// Packets followed by packets.
proof fn lemma_stays_open_append(
    session: SessionView,
    first: Seq<Seq<u8>>,
    second: Seq<Seq<u8>>,
)
    ensures
        session.after(first + second) == session.after(first).after(second),
        stays_open(session, first + second) == (stays_open(session, first) && stays_open(
            session.after(first),
            second,
        )),
    decreases second.len(),
{
    if second.len() == 0 {
        assert(first + second =~= first);
    } else {
        lemma_stays_open_append(session, first, second.drop_last());
        assert((first + second).drop_last() =~= first + second.drop_last());
        assert((first + second).last() == second.last());
    }
}

/// What a session that nobody has connected to says to a client's connection
/// request.
proof fn lemma_connection()
    ensures
        ({
            let request = packet::signal_packet(client::connection_request());
            let (next, said) = SessionView::fresh().handled(request);
            &&& next == connected()
            &&& said matches Ok(response)
            &&& response.answers.len() == 1
            &&& response.complete is None
            &&& !response.closed
            &&& client::connected_to(response.answers[0]) == Ok::<u16, Error>(
                l2cap::FIRST_DYNAMIC,
            )
        }),
{
    session::lemma_handles_signal(SessionView::fresh(), client::connection_request());
    packet::law_signal_packet_reads_back(
        SessionView::connection_response(1, l2cap::RFCOMM_PSM, l2cap::FIRST_DYNAMIC),
    );
}

/// What a session says to a client's disconnection request.
proof fn lemma_disconnection(session: SessionView)
    ensures
        ({
            let step = client::disconnection_step(l2cap::FIRST_DYNAMIC);
            let (next, said) = session.handled(step.packet->Ok_0);
            &&& suits_step(session, step)
            &&& next == SessionView::fresh()
            &&& said matches Ok(response)
            &&& response.complete is None
            &&& response.closed
        }),
{
    let request = client::disconnection_request(l2cap::FIRST_DYNAMIC);
    session::lemma_handles_signal(session, request);
    packet::law_signal_packet_reads_back(
        Signal::DisconnectionResponse {
            identifier: 2,
            destination: l2cap::FIRST_DYNAMIC,
            source: l2cap::FIRST_DYNAMIC,
        },
    );
}

/// Steps after which a session is connected and nothing more, and then the
/// disconnection, leave nobody connected.
proof fn lemma_then_disconnects(most: Seq<Step>, streams: Seq<(u8, Seq<u8>)>)
    requires
        leads(connected(), most, connected(), streams),
    ensures
        finishes(
            connected(),
            most.push(client::disconnection_step(l2cap::FIRST_DYNAMIC)),
            SessionView::fresh(),
            streams,
        ),
{
    let last = client::disconnection_step(l2cap::FIRST_DYNAMIC);
    reveal(leads);
    reveal(finishes);
    lemma_disconnection(connected());
    lemma_one(connected(), last);
    lemma_append(connected(), most, seq![last]);
    assert(most + seq![last] =~= most.push(last));
    assert(streams + Seq::<(u8, Seq<u8>)>::empty() =~= streams);
}

/// A session that was just connected answers all a client says with what is
/// due, takes the Stream whole, and has nobody connected after.
proof fn lemma_client_finishes(dlci: u8, bytes: Seq<u8>)
    requires
        1 <= dlci <= rfcomm::MAX_DLCI,
    ensures
        finishes(
            connected(),
            client::steps(l2cap::FIRST_DYNAMIC, dlci, bytes),
            SessionView::fresh(),
            seq![(dlci, bytes)],
        ),
{
    lemma_client_leads(dlci, bytes);
    lemma_then_disconnects(steps_but_last(dlci, bytes), seq![(dlci, bytes)]);
    assert(client::steps(l2cap::FIRST_DYNAMIC, dlci, bytes) =~= steps_but_last(dlci, bytes).push(
        client::disconnection_step(l2cap::FIRST_DYNAMIC),
    ));
}

/// Steps that the session inside a loopback radio finishes go well there.
proof fn lemma_loopback_finishes(
    state: LoopbackView,
    steps: Seq<Step>,
    next: SessionView,
    streams: Seq<(u8, Seq<u8>)>,
    timeout: Duration,
    events: Seq<Event>,
    outcome: Result<(), Error>,
)
    requires
        state.to_client.len() == 0,
        finishes(state.session, steps, next, streams),
        client::plays(steps, timeout, events, outcome),
        state.admits_all(events),
    ensures
        outcome is Ok,
        state.after_all(events) == (LoopbackView {
            session: next,
            to_client: state.to_client,
            arrived: state.arrived + streams,
        }),
{
    reveal(finishes);
    lemma_loopback_plays(state, steps, timeout, events, outcome);
}

/// On a loopback radio nobody is connected to a client is connected, and has
/// its steps to take.
proof fn lemma_loopback_connects(
    before: LoopbackView,
    channel: u8,
    bytes: Seq<u8>,
    timeout: Duration,
    events: Seq<Event>,
    outcome: Result<(), Error>,
)
    requires
        before.idle(),
        client::sends(channel, bytes, timeout, events, outcome),
        before.admits_all(events),
    ensures
        ({
            let heard = LoopbackView { session: connected(), ..before };
            &&& client::plays(
                client::steps(l2cap::FIRST_DYNAMIC, client::dlci_of(channel), bytes),
                timeout,
                events.skip(2),
                outcome,
            )
            &&& heard.admits_all(events.skip(2))
            &&& before.after_all(events) == heard.after_all(events.skip(2))
        }),
{
    let request = packet::signal_packet(client::connection_request());
    let opening = if events.len() < 2 {
        events
    } else {
        events.take(2)
    };
    lemma_connection();
    radio::lemma_after_first(before, events);
    assert(opening[0] == events[0]);
    let told = before.transmitted(request).0;
    assert(events.len() >= 2);
    radio::lemma_after_first(told, events.skip(1));
    assert(events.skip(1)[0] == events[1]);
    assert(opening[1] == events[1]);
    assert(events.skip(1).skip(1) =~= events.skip(2));
    assert(told.received().0 =~= LoopbackView { session: connected(), ..before });
}

/// A loopback returns every Stream whole: on a loopback radio nobody is
/// connected to, writing any bytes on any server channel succeeds, and leaves
/// the radio as it was but for the Stream, which has arrived on the channel's
/// data link with exactly those bytes.
pub proof fn law_loopback_returns_the_stream(
    before: LoopbackView,
    channel: u8,
    bytes: Seq<u8>,
    timeout: Duration,
    events: Seq<Event>,
    outcome: Result<(), Error>,
)
    requires
        before.idle(),
        1 <= channel % 128 <= 30,
        client::sends(channel, bytes, timeout, events, outcome),
        before.admits_all(events),
    ensures
        outcome is Ok,
        before.after_all(events) == (LoopbackView {
            arrived: before.arrived.push((client::dlci_of(channel), bytes)),
            ..before
        }),
{
    let dlci = client::dlci_of(channel);
    let heard = LoopbackView { session: connected(), ..before };
    let steps = client::steps(l2cap::FIRST_DYNAMIC, dlci, bytes);
    let rest = events.skip(2);
    assert(client::plays(steps, timeout, rest, outcome) && heard.admits_all(rest)
        && before.after_all(events) == heard.after_all(rest)) by {
        lemma_loopback_connects(before, channel, bytes, timeout, events, outcome);
    }
    lemma_client_finishes(dlci, bytes);
    lemma_loopback_finishes(
        heard,
        steps,
        SessionView::fresh(),
        seq![(dlci, bytes)],
        timeout,
        rest,
        outcome,
    );
    assert(before.arrived + seq![(dlci, bytes)] =~= before.arrived.push((dlci, bytes)));
}

/// Where an answer waits that the next acknowledgement is not, the steps fail
/// there: what is said before it puts nothing in front of the answer.
proof fn lemma_loopback_refuses(
    state: LoopbackView,
    steps: Seq<Step>,
    at: int,
    timeout: Duration,
    events: Seq<Event>,
    outcome: Result<(), Error>,
)
    requires
        0 <= at < steps.len(),
        forall|i: int| 0 <= i < at ==> (#[trigger] steps[i]).due is Nothing,
        steps[at].due is Acknowledgement,
        state.to_client.len() > 0,
        client::accepts(steps[at].due, state.to_client[0]) is Err,
        client::plays(steps, timeout, events, outcome),
        state.admits_all(events),
    ensures
        outcome is Err,
    decreases at,
{
    if outcome is Ok {
        let count = client::event_count(steps[0]);
        let told = state.transmitted(steps[0].packet->Ok_0).0;
        assert(events.take(count)[0] == events[0]);
        radio::lemma_after_first(state, events);
        assert(told.to_client[0] == state.to_client[0]);
        if at == 0 {
            assert(events.take(count)[1] == events[1]);
            radio::lemma_after_first(told, events.skip(1));
            assert(events.skip(1)[0] == events[1]);
        } else {
            let rest = steps.skip(1);
            assert(steps[0].due is Nothing);
            assert forall|i: int| 0 <= i < at - 1 implies (#[trigger] rest[i]).due is Nothing by {
                assert(rest[i] == steps[i + 1]);
            }
            assert(rest[at - 1] == steps[at]);
            lemma_loopback_refuses(told, rest, at - 1, timeout, events.skip(1), outcome);
        }
    }
}

/// A session that was just connected answers all a client says to write
/// nothing on the multiplexer's own link with what is due, completes nothing,
/// and has nobody connected after.
proof fn lemma_empty_finishes_on_the_multiplexer()
    ensures
        finishes(
            connected(),
            client::steps(l2cap::FIRST_DYNAMIC, 0, Seq::empty()),
            SessionView::fresh(),
            Seq::empty(),
        ),
{
    let remote = l2cap::FIRST_DYNAMIC;
    let none = Seq::<(u8, Seq<u8>)>::empty();
    let start = connected();
    let up = SessionView { multiplexer: true, ..start };
    let open = seq![client::command_step(remote, 0, Control::Sabm)];
    let close = seq![client::command_step(remote, 0, Control::Disc)];
    let most = open + open + close + close;
    assert(none + none =~= none);
    lemma_command_leads(start, 0, Control::Sabm);
    lemma_command_leads(up, 0, Control::Sabm);
    lemma_command_leads(up, 0, Control::Disc);
    lemma_command_leads(start, 0, Control::Disc);
    lemma_leads_on(start, open, up, none, open, up, none);
    lemma_leads_on(start, open + open, up, none, close, start, none);
    lemma_leads_on(start, open + open + close, start, none, close, start, none);
    lemma_then_disconnects(most, none);
    assert(client::steps(remote, 0, Seq::empty()) =~= most.push(
        client::disconnection_step(remote),
    ));
}

/// Writing anything on the multiplexer's own link fails: its data is answered
/// DM, and that is what the client hears where UA is due.
proof fn lemma_loopback_on_the_multiplexer(
    before: LoopbackView,
    bytes: Seq<u8>,
    timeout: Duration,
    events: Seq<Event>,
    outcome: Result<(), Error>,
)
    requires
        before.idle(),
        bytes.len() > 0,
        client::plays(
            client::steps(l2cap::FIRST_DYNAMIC, 0, bytes),
            timeout,
            events,
            outcome,
        ),
        (LoopbackView { session: connected(), ..before }).admits_all(events),
    ensures
        outcome is Err,
{
    let remote = l2cap::FIRST_DYNAMIC;
    let up = SessionView { multiplexer: true, ..connected() };
    let heard = LoopbackView { session: connected(), ..before };
    let began = LoopbackView { session: up, ..before };
    let open = client::command_step(remote, 0, Control::Sabm);
    let steps = client::steps(remote, 0, bytes);
    let rest = steps.skip(1).skip(1);
    let left = events.skip(2).skip(2);
    assert(client::plays(rest, timeout, left, outcome) && began.admits_all(left)) by {
        assert(steps[0] == open);
        assert(steps.skip(1)[0] == open);
        assert(before.arrived + Seq::<(u8, Seq<u8>)>::empty() =~= before.arrived);
        lemma_command_suits(connected(), 0, Control::Sabm);
        lemma_loopback_step(heard, steps, timeout, events, outcome);
        lemma_command_suits(up, 0, Control::Sabm);
        lemma_loopback_step(began, steps.skip(1), timeout, events.skip(2), outcome);
    }
    if outcome is Ok {
        lemma_loopback_answers_dm(began, bytes, timeout, left, outcome);
    }
}

/// Data on the multiplexer's own link leaves an answer waiting that is not UA.
proof fn lemma_dm_waits(began: LoopbackView, piece: Seq<u8>)
    requires
        began.session == (SessionView { multiplexer: true, ..connected() }),
        began.to_client.len() == 0,
        piece.len() <= rfcomm::MAX_FRAME,
    ensures
        ({
            let step = client::data_step(l2cap::FIRST_DYNAMIC, 0, piece);
            let told = began.transmitted(step.packet->Ok_0).0;
            &&& told.to_client.len() > 0
            &&& client::accepts(Due::Acknowledgement { dlci: 0 }, told.to_client[0]) is Err
        }),
{
    session::law_what_was_not_opened_is_answered_dm(began.session, 0, Control::Uih, piece);
    session::lemma_handles_frame(began.session, 0, Control::Uih, piece);
    packet::law_rfcomm_packet_reads_back(
        l2cap::FIRST_DYNAMIC,
        0,
        Control::Dm,
        Seq::empty(),
    );
}

/// Data on the multiplexer's own link fails where UA is due next.
proof fn lemma_loopback_answers_dm(
    began: LoopbackView,
    bytes: Seq<u8>,
    timeout: Duration,
    events: Seq<Event>,
    outcome: Result<(), Error>,
)
    requires
        began.session == (SessionView { multiplexer: true, ..connected() }),
        began.to_client.len() == 0,
        bytes.len() > 0,
        client::plays(
            client::steps(l2cap::FIRST_DYNAMIC, 0, bytes).skip(1).skip(1),
            timeout,
            events,
            outcome,
        ),
        began.admits_all(events),
    ensures
        outcome is Err,
{
    let remote = l2cap::FIRST_DYNAMIC;
    let steps = client::steps(remote, 0, bytes).skip(1).skip(1);
    let first = client::piece(bytes, 0);
    let count = client::pieces(bytes).len() as int;
    let close = client::command_step(remote, 0, Control::Disc);
    let told = began.transmitted(steps[0].packet->Ok_0).0;
    let rest = steps.skip(1);
    client::law_pieces_are_the_stream(bytes);
    assert(client::pieces(bytes)[0] == first);
    assert(steps[0] == client::data_step(remote, 0, first));
    lemma_dm_waits(began, first);
    if outcome is Ok {
        assert(client::plays(rest, timeout, events.skip(1), outcome) && told.admits_all(
            events.skip(1),
        )) by {
            radio::lemma_after_first(began, events);
            assert(events.take(1)[0] == events[0]);
        }
        assert forall|i: int| 0 <= i < count - 1 implies (#[trigger] rest[i]).due is Nothing by {
            assert(rest[i] == client::data_steps(remote, 0, bytes)[i + 1]);
        }
        assert(rest[count - 1] == close);
        lemma_loopback_refuses(told, rest, count - 1, timeout, events.skip(1), outcome);
    }
}

/// Sending that went well leaves a loopback radio that nobody is connected to
/// with nobody connected, whatever the channel.
pub proof fn law_sending_leaves_the_loopback_idle(
    before: LoopbackView,
    channel: u8,
    bytes: Seq<u8>,
    timeout: Duration,
    events: Seq<Event>,
)
    requires
        before.idle(),
        client::sends(channel, bytes, timeout, events, Ok(())),
        before.admits_all(events),
    ensures
        before.after_all(events).idle(),
{
    if client::dlci_of(channel) > rfcomm::MAX_DLCI {
        client::law_reserved_link_is_never_sent_on(channel, bytes, timeout, events, Ok(()));
    } else if channel % 128 == 0 {
        let heard = LoopbackView { session: connected(), ..before };
        let rest = events.skip(2);
        lemma_loopback_connects(before, channel, bytes, timeout, events, Ok(()));
        if bytes.len() > 0 {
            lemma_loopback_on_the_multiplexer(before, bytes, timeout, rest, Ok(()));
        } else {
            assert(bytes =~= Seq::empty());
            lemma_empty_finishes_on_the_multiplexer();
            lemma_loopback_finishes(
                heard,
                client::steps(l2cap::FIRST_DYNAMIC, 0, bytes),
                SessionView::fresh(),
                Seq::empty(),
                timeout,
                rest,
                Ok(()),
            );
        }
    } else {
        law_loopback_returns_the_stream(before, channel, bytes, timeout, events, Ok(()));
    }
}

/// A call on a loopback, and the events it made.
pub enum Call {
    /// A Stream was written on a channel, and that went well.
    Sent { channel: u8, bytes: Seq<u8>, timeout: Duration, events: Seq<Event> },
    /// A connection was served, and came to an end or to no end.
    Served {
        serving: ServingView,
        turns: nat,
        timeout: Duration,
        events: Seq<Event>,
        end: Result<ServedView, Error>,
    },
    /// The next Stream that arrived was asked for.
    Collected { stream: Option<(u8, Seq<u8>)> },
}

impl Call {
    /// The events of the call.
    pub open spec fn events(self) -> Seq<Event> {
        match self {
            Call::Sent { events, .. } => events,
            Call::Served { events, .. } => events,
            Call::Collected { stream } => seq![Event::Collected { stream }],
        }
    }

    /// Whether the call made its events as the transport's contracts say.
    pub open spec fn made(self) -> bool {
        match self {
            Call::Sent { channel, bytes, timeout, events } => client::sends(
                channel,
                bytes,
                timeout,
                events,
                Ok(()),
            ),
            Call::Served { serving, turns, timeout, events, end } => server::serves(
                serving,
                turns,
                timeout,
                events,
                end,
            ),
            Call::Collected { .. } => true,
        }
    }
}

/// The events of several calls, one after the other.
pub open spec fn events_of(calls: Seq<Call>) -> Seq<Event>
    decreases calls.len(),
{
    if calls.len() == 0 {
        Seq::empty()
    } else {
        events_of(calls.drop_last()) + calls.last().events()
    }
}

/// Calls leave a loopback radio that nobody is connected to with nobody
/// connected.
proof fn lemma_calls_leave_idle(before: LoopbackView, calls: Seq<Call>)
    requires
        before.idle(),
        forall|i: int| 0 <= i < calls.len() ==> (#[trigger] calls[i]).made(),
        before.admits_all(events_of(calls)),
    ensures
        before.after_all(events_of(calls)).idle(),
    decreases calls.len(),
{
    if calls.len() > 0 {
        let fewer = calls.drop_last();
        let last = calls.last();
        assert(calls[calls.len() - 1].made());
        assert forall|i: int| 0 <= i < fewer.len() implies (#[trigger] fewer[i]).made() by {
            assert(fewer[i] == calls[i]);
        }
        radio::lemma_after_all_append(before, events_of(fewer), last.events());
        lemma_calls_leave_idle(before, fewer);
        let state = before.after_all(events_of(fewer));
        match last {
            Call::Sent { channel, bytes, timeout, events } => {
                law_sending_leaves_the_loopback_idle(state, channel, bytes, timeout, events);
            },
            Call::Served { turns, events, .. } => {
                if turns > 0 {
                    radio::lemma_after_first(state, events);
                    assert(events.skip(1) =~= Seq::empty());
                }
            },
            Call::Collected { stream } => {
                radio::lemma_after_first(state, last.events());
                assert(last.events().skip(1) =~= Seq::empty());
            },
        }
    }
}

/// A loopback returns every Stream whole, after any calls whose sends went
/// well: from a fresh loopback radio, once any Streams were sent, connections
/// served and Streams collected, in any order, writing any bytes on any server
/// channel succeeds. One more Stream has then arrived, after those not yet
/// collected, on the channel's data link with exactly those bytes; no answer
/// waits for the client, and nobody is connected.
pub proof fn law_loopback_returns_every_stream(
    calls: Seq<Call>,
    channel: u8,
    bytes: Seq<u8>,
    timeout: Duration,
    events: Seq<Event>,
    outcome: Result<(), Error>,
)
    requires
        forall|i: int| 0 <= i < calls.len() ==> (#[trigger] calls[i]).made(),
        LoopbackView::fresh().admits_all(events_of(calls) + events),
        1 <= channel <= 30,
        client::sends(channel, bytes, timeout, events, outcome),
    ensures
        ({
            let before = LoopbackView::fresh().after_all(events_of(calls));
            let after = LoopbackView::fresh().after_all(events_of(calls) + events);
            &&& outcome is Ok
            &&& after.arrived == before.arrived.push(((2 * channel) as u8, bytes))
            &&& after.to_client.len() == 0
            &&& after.session == SessionView::fresh()
        }),
{
    let fresh = LoopbackView::fresh();
    let before = fresh.after_all(events_of(calls));
    assert(client::dlci_of(channel) == (2 * channel) as u8);
    assert(before.idle() && before.admits_all(events) && fresh.after_all(events_of(calls) + events)
        == before.after_all(events)) by {
        radio::lemma_after_all_append(fresh, events_of(calls), events);
        lemma_calls_leave_idle(fresh, calls);
    }
    law_loopback_returns_the_stream(before, channel, bytes, timeout, events, outcome);
}

/// The events of one turn of serving on a link that fails nowhere: the packet
/// comes, and every answer to it goes out.
pub open spec fn untroubled_turn(
    timeout: Duration,
    session: SessionView,
    packet: Seq<u8>,
) -> Seq<Event> {
    seq![Event::Received { timeout, received: Ok(Some(packet)) }] + session.handled(
        packet,
    ).1->Ok_0.answers.map_values(
        |answer: Seq<u8>| Event::Transmitted { packet: answer, outcome: Ok(()) },
    )
}

/// The events of serving several packets on a link that fails nowhere.
pub open spec fn untroubled(
    timeout: Duration,
    session: SessionView,
    packets: Seq<Seq<u8>>,
) -> Seq<Event>
    decreases packets.len(),
{
    if packets.len() == 0 {
        Seq::empty()
    } else {
        untroubled(timeout, session, packets.drop_last()) + untroubled_turn(
            timeout,
            session.after(packets.drop_last()),
            packets.last(),
        )
    }
}

/// Answers that all go out.
proof fn lemma_tells_all(answers: Seq<Seq<u8>>)
    ensures
        server::tells(
            answers,
            answers.map_values(
                |answer: Seq<u8>| Event::Transmitted { packet: answer, outcome: Ok(()) },
            ),
            Ok(()),
        ),
    decreases answers.len(),
{
    let sent = |answer: Seq<u8>| Event::Transmitted { packet: answer, outcome: Ok(()) };
    let events = answers.map_values(sent);
    if answers.len() > 0 {
        lemma_tells_all(answers.skip(1));
        assert(events.skip(1) =~= answers.skip(1).map_values(sent));
        assert(events[0] == sent(answers[0]));
    }
}

/// One untroubled turn of serving.
proof fn lemma_serves_turn(serving: ServingView, timeout: Duration, packet: Seq<u8>)
    requires
        serving.session.handled(packet).1 is Ok,
    ensures
        ({
            let (next, said) = serving.session.handled(packet);
            let then = serving.heard(next, said->Ok_0);
            server::serves(
                serving,
                1,
                timeout,
                untroubled_turn(timeout, serving.session, packet),
                Ok::<ServedView, Error>(
                    if said->Ok_0.closed {
                        ServedView::Over { stream: then.taken }
                    } else {
                        ServedView::More { serving: then }
                    },
                ),
            )
        }),
{
    let answers = serving.session.handled(packet).1->Ok_0.answers;
    let sent = |answer: Seq<u8>| Event::Transmitted { packet: answer, outcome: Ok(()) };
    lemma_tells_all(answers);
    server::lemma_serves_one(serving, timeout, packet, answers.map_values(sent), Ok(()));
}

/// The Stream held after several were completed: the last, or the one held
/// before.
pub open spec fn held_after(
    held: Option<(u8, Seq<u8>)>,
    streams: Seq<(u8, Seq<u8>)>,
) -> Option<(u8, Seq<u8>)> {
    if streams.len() == 0 {
        held
    } else {
        Some(streams.last())
    }
}

/// Untroubled serving of packets that do not end the connection.
proof fn lemma_serves_untroubled(
    serving: ServingView,
    timeout: Duration,
    packets: Seq<Seq<u8>>,
)
    requires
        stays_open(serving.session, packets),
    ensures
        server::serves(
            serving,
            packets.len(),
            timeout,
            untroubled(timeout, serving.session, packets),
            Ok::<ServedView, Error>(
                ServedView::More {
                    serving: ServingView {
                        session: serving.session.after(packets),
                        taken: held_after(
                            serving.taken,
                            completed(serving.session, packets),
                        ),
                        begun: serving.begun || packets.len() > 0,
                    },
                },
            ),
        ),
    decreases packets.len(),
{
    if packets.len() > 0 {
        let fewer = packets.drop_last();
        let before = serving.session.after(fewer);
        lemma_serves_untroubled(serving, timeout, fewer);
        let then = ServingView {
            session: before,
            taken: held_after(serving.taken, completed(serving.session, fewer)),
            begun: serving.begun || fewer.len() > 0,
        };
        lemma_serves_turn(then, timeout, packets.last());
        let (next, said) = before.handled(packets.last());
        server::lemma_serves_append(
            serving,
            fewer.len(),
            then,
            1,
            timeout,
            untroubled(timeout, serving.session, fewer),
            untroubled_turn(timeout, before, packets.last()),
            Ok::<ServedView, Error>(ServedView::More { serving: then.heard(next, said->Ok_0) }),
        );
    }
}

/// A Stream whose data link closed is handed over though the peer then goes
/// quiet: serving packets of which one completed a Stream, on a link that fails
/// nowhere and then brings nothing more, ends with the Stream completed last.
pub proof fn law_quiet_peer_loses_no_stream(
    timeout: Duration,
    packets: Seq<Seq<u8>>,
    turns: nat,
)
    requires
        stays_open(SessionView::fresh(), packets),
        completed(SessionView::fresh(), packets).len() > 0,
        turns > packets.len(),
    ensures
        server::serves(
            ServingView::fresh(),
            turns,
            timeout,
            untroubled(timeout, SessionView::fresh(), packets).push(
                Event::Received { timeout, received: Ok(None) },
            ),
            Ok::<ServedView, Error>(
                ServedView::Over {
                    stream: Some(completed(SessionView::fresh(), packets).last()),
                },
            ),
        ),
{
    let start = ServingView::fresh();
    let streams = completed(start.session, packets);
    let quiet = seq![Event::Received { timeout, received: Ok(None) }];
    let events = untroubled(timeout, start.session, packets);
    let then = ServingView {
        session: start.session.after(packets),
        taken: held_after(None, streams),
        begun: start.begun || packets.len() > 0,
    };
    let end = Ok::<ServedView, Error>(ServedView::Over { stream: Some(streams.last()) });
    lemma_serves_untroubled(start, timeout, packets);
    assert(server::serves(then, 1, timeout, quiet, end));
    server::lemma_serves_append(start, packets.len(), then, 1, timeout, events, quiet, end);
    assert(events + quiet =~= events.push(quiet[0]));
    server::lemma_serves_ended(start, packets.len() + 1, turns, timeout, events + quiet, end);
}

/// The Stream of a client that goes quiet once its data link closed is handed
/// over: serving its connection request and all it says up to its DISC, on a
/// link that fails nowhere and then brings nothing more, ends with the Stream.
pub proof fn law_stream_of_a_quiet_client_is_handed_over(
    timeout: Duration,
    dlci: u8,
    bytes: Seq<u8>,
    turns: nat,
)
    requires
        1 <= dlci <= rfcomm::MAX_DLCI,
        turns > 1 + steps_to_disc(dlci, bytes).len(),
    ensures
        ({
            let packets = seq![packet::signal_packet(client::connection_request())]
                + client::packets_of(steps_to_disc(dlci, bytes));
            server::serves(
                ServingView::fresh(),
                turns,
                timeout,
                untroubled(timeout, SessionView::fresh(), packets).push(
                    Event::Received { timeout, received: Ok(None) },
                ),
                Ok::<ServedView, Error>(ServedView::Over { stream: Some((dlci, bytes)) }),
            )
        }),
{
    let start = SessionView::fresh();
    let request = packet::signal_packet(client::connection_request());
    let steps = steps_to_disc(dlci, bytes);
    let opening = Step { packet: Ok(request), due: Due::Nothing };
    let packets = seq![request] + client::packets_of(steps);
    lemma_connection();
    lemma_client_leads_to_disc(dlci, bytes);
    reveal(leads);
    lemma_one(start, opening);
    lemma_stays_open_one(start, opening);
    lemma_append(start, seq![opening], steps);
    lemma_stays_open_append(start, seq![request], client::packets_of(steps));
    assert(completed(start, packets) =~= seq![(dlci, bytes)]);
    law_quiet_peer_loses_no_stream(timeout, packets, turns);
}

/// A server takes whole what a client writes, over any radio: serving what was
/// said for a Stream that was sent, on a link that fails nowhere, ends with
/// that Stream on the data link of its channel.
pub proof fn law_server_takes_what_a_client_writes(
    channel: u8,
    bytes: Seq<u8>,
    client_timeout: Duration,
    events: Seq<Event>,
    server_timeout: Duration,
    turns: nat,
)
    requires
        1 <= channel % 128 <= 30,
        client::sends(channel, bytes, client_timeout, events, Ok(())),
        client::remote_in(events.take(2)) == Ok::<u16, Error>(l2cap::FIRST_DYNAMIC),
        turns >= client::said(events).len(),
    ensures
        server::serves(
            ServingView::fresh(),
            turns,
            server_timeout,
            untroubled(server_timeout, SessionView::fresh(), client::said(events)),
            Ok::<ServedView, Error>(
                ServedView::Over { stream: Some((client::dlci_of(channel), bytes)) },
            ),
        ),
{
    let dlci = client::dlci_of(channel);
    let request = packet::signal_packet(client::connection_request());
    let start = SessionView::fresh();
    let last = client::disconnection_step(l2cap::FIRST_DYNAMIC);
    let middle = client::packets_of(steps_but_last(dlci, bytes));
    let packets = client::said(events);
    let fewer = packets.drop_last();
    client::law_sent_stream_was_said_in_full(channel, bytes, client_timeout, events);
    assert(client::steps(l2cap::FIRST_DYNAMIC, dlci, bytes) =~= steps_but_last(dlci, bytes) + seq![
        last,
    ]);
    assert(fewer =~= seq![request] + middle);
    assert(packets.last() == last.packet->Ok_0);
    lemma_connection();
    lemma_client_leads(dlci, bytes);
    reveal(leads);
    lemma_disconnection(connected());
    let opening = Step { packet: Ok(request), due: Due::Nothing };
    let opened = seq![opening];
    assert(client::packets_of(opened) =~= seq![request]);
    lemma_one(start, opening);
    lemma_stays_open_one(start, opening);
    lemma_append(start, opened, steps_but_last(dlci, bytes));
    lemma_stays_open_append(start, seq![request], middle);
    assert(client::packets_of(opened + steps_but_last(dlci, bytes)) =~= fewer);
    lemma_serves_untroubled(ServingView::fresh(), server_timeout, fewer);
    assert(completed(start, fewer) =~= seq![(dlci, bytes)]);
    let then = ServingView { session: connected(), taken: Some((dlci, bytes)), begun: true };
    lemma_serves_turn(then, server_timeout, packets.last());
    let end = Ok::<ServedView, Error>(ServedView::Over { stream: Some((dlci, bytes)) });
    server::lemma_serves_append(
        ServingView::fresh(),
        fewer.len(),
        then,
        1,
        server_timeout,
        untroubled(server_timeout, start, fewer),
        untroubled_turn(server_timeout, connected(), packets.last()),
        end,
    );
    server::lemma_serves_ended(
        ServingView::fresh(),
        packets.len(),
        turns,
        server_timeout,
        untroubled(server_timeout, start, packets),
        end,
    );
}

} // verus!
